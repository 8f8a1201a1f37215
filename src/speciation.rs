use vstd::prelude::*;

verus! {

/// A species: genomes (by identity) that lie within the compatibility
/// threshold of its representative.
#[derive(Debug, Clone)]
pub struct Species {
    pub id: usize,
    pub created: usize,
    pub representative: usize,
    pub members: Vec<usize>,
}

/// Some species of `species` has `g` as a member.
pub open spec fn in_some_species(species: Seq<Species>, g: usize) -> bool {
    exists|s: int| 0 <= s < species.len() && (#[trigger] species[s]).members@.contains(g)
}

/// Every genome of `genomes` belongs to exactly one species of `species`,
/// every member of a species is one of `genomes`, and every species holds
/// its representative as its first member and no genome twice.
pub open spec fn partitions(species: Seq<Species>, genomes: Seq<usize>) -> bool {
    &&& forall|p: int| 0 <= p < genomes.len() ==> #[trigger] in_some_species(species, genomes[p])
    &&& forall|s1: int, s2: int, g: usize|
        0 <= s1 < species.len() && 0 <= s2 < species.len() && #[trigger] species[s1].members@.contains(g)
            && #[trigger] species[s2].members@.contains(g) ==> s1 == s2
    &&& forall|s: int|
        0 <= s < species.len() ==> {
            let sp = #[trigger] species[s];
            &&& sp.members@.len() > 0
            &&& sp.members@[0] == sp.representative
            &&& sp.members@.no_duplicates()
            &&& forall|k: int| 0 <= k < sp.members@.len() ==> genomes.contains(#[trigger] sp.members@[k])
        }
}

/// `distance` may report genome `g` within the threshold of
/// representative `r`.
pub open spec fn compatible<D, F: Fn(usize, usize) -> Option<D>>(distance: F, g: usize, r: usize) -> bool {
    exists|d: D| #[trigger] distance.ensures((g, r), Some(d))
}

/// Every member of every species but its representative was found within
/// the threshold of the representative.
pub open spec fn members_compatible<D, F: Fn(usize, usize) -> Option<D>>(distance: F, species: Seq<Species>) -> bool {
    forall|s: int, k: int|
        0 <= s < species.len() && 1 <= k < species[s].members@.len() ==> compatible(
            distance,
            #[trigger] species[s].members@[k],
            species[s].representative,
        )
}

/// The ghost bookkeeping of a speciation: `owner[p]` is the species of the
/// genome at position `p` (negative while it has none), and `origin[s][k]`
/// the position of member `k` of species `s`.
spec fn assignment(
    species: Seq<Species>,
    genomes: Seq<usize>,
    owner: Seq<int>,
    origin: Seq<Seq<int>>,
) -> bool {
    &&& owner.len() == genomes.len()
    &&& origin.len() == species.len()
    &&& forall|p: int| 0 <= p < genomes.len() ==> #[trigger] owner[p] < species.len()
    &&& forall|p: int|
        0 <= p < genomes.len() && #[trigger] owner[p] >= 0 ==> species[owner[p]].members@.contains(genomes[p])
    &&& forall|s: int|
        0 <= s < species.len() ==> {
            &&& (#[trigger] origin[s]).len() == species[s].members@.len()
            &&& species[s].members@.len() > 0
            &&& species[s].members@[0] == species[s].representative
        }
    &&& forall|s: int, k: int|
        0 <= s < species.len() && 0 <= k < species[s].members@.len() ==> {
            let p = #[trigger] origin[s][k];
            &&& 0 <= p < genomes.len()
            &&& genomes[p] == species[s].members@[k]
            &&& owner[p] == s
        }
    &&& forall|s: int, k1: int, k2: int|
        0 <= s < species.len() && 0 <= k1 < species[s].members@.len() && 0 <= k2 < species[s].members@.len()
            && k1 != k2 ==> #[trigger] origin[s][k1] != #[trigger] origin[s][k2]
}

/// The assignment bookkeeping gives a partition once every genome has a
/// species.
proof fn lemma_assignment_partitions(
    species: Seq<Species>,
    genomes: Seq<usize>,
    owner: Seq<int>,
    origin: Seq<Seq<int>>,
)
    requires
        assignment(species, genomes, owner, origin),
        genomes.no_duplicates(),
        forall|p: int| 0 <= p < genomes.len() ==> #[trigger] owner[p] >= 0,
    ensures
        partitions(species, genomes),
{
    assert forall|p: int| 0 <= p < genomes.len() implies #[trigger] in_some_species(species, genomes[p]) by {
        assert(owner[p] >= 0);
        assert(species[owner[p]].members@.contains(genomes[p]));
    }
    assert forall|s1: int, s2: int, g: usize|
        0 <= s1 < species.len() && 0 <= s2 < species.len() && #[trigger] species[s1].members@.contains(g)
            && #[trigger] species[s2].members@.contains(g) implies s1 == s2 by {
        let k1 = choose|k: int| 0 <= k < species[s1].members@.len() && species[s1].members@[k] == g;
        let k2 = choose|k: int| 0 <= k < species[s2].members@.len() && species[s2].members@[k] == g;
        let pa = origin[s1][k1];
        let pb = origin[s2][k2];
        assert(genomes[pa] == genomes[pb]);
    }
    assert(forall|s1: int, s2: int, g: usize|
        0 <= s1 < species.len() && 0 <= s2 < species.len() && #[trigger] species[s1].members@.contains(g)
            && #[trigger] species[s2].members@.contains(g) ==> s1 == s2);
    assert forall|s: int| 0 <= s < species.len() implies {
        let sp = #[trigger] species[s];
        &&& sp.members@.len() > 0
        &&& sp.members@[0] == sp.representative
        &&& sp.members@.no_duplicates()
        &&& forall|k: int| 0 <= k < sp.members@.len() ==> genomes.contains(#[trigger] sp.members@[k])
    } by {
        let sp = species[s];
        assert forall|k1: int, k2: int|
            0 <= k1 < sp.members@.len() && 0 <= k2 < sp.members@.len() && k1 != k2 implies sp.members@[k1]
            != sp.members@[k2] by {
            let pa = origin[s][k1];
            let pb = origin[s][k2];
            assert(pa != pb);
        }
        assert forall|k: int| 0 <= k < sp.members@.len() implies genomes.contains(#[trigger] sp.members@[k]) by {
            let p = origin[s][k];
            assert(genomes[p] == sp.members@[k]);
        }
    }
}

/// Adding the genome at position `p`, which has no species yet, to species
/// `s` keeps the bookkeeping.
proof fn lemma_join(
    before: Seq<Species>,
    after: Seq<Species>,
    genomes: Seq<usize>,
    owner: Seq<int>,
    origin: Seq<Seq<int>>,
    p: int,
    s: int,
)
    requires
        assignment(before, genomes, owner, origin),
        0 <= p < genomes.len(),
        owner[p] < 0,
        0 <= s < before.len(),
        after.len() == before.len(),
        forall|t: int| 0 <= t < after.len() && t != s ==> #[trigger] after[t] == before[t],
        after[s].representative == before[s].representative,
        after[s].members@ == before[s].members@.push(genomes[p]),
    ensures
        assignment(after, genomes, owner.update(p, s), origin.update(s, origin[s].push(p))),
{
    let owner2 = owner.update(p, s);
    let origin2 = origin.update(s, origin[s].push(p));
    let m = before[s].members@.len() as int;
    assert(after[s].members@[m] == genomes[p]);
    assert forall|q: int|
        0 <= q < genomes.len() && #[trigger] owner2[q] >= 0 implies after[owner2[q]].members@.contains(genomes[q]) by {
        if q == p {
            assert(after[s].members@[m] == genomes[q]);
        } else {
            let k = choose|k: int| 0 <= k < before[owner[q]].members@.len() && before[owner[q]].members@[k] == genomes[q];
            assert(after[owner[q]].members@[k] == genomes[q]);
        }
    }
    assert forall|t: int| 0 <= t < after.len() implies {
        &&& (#[trigger] origin2[t]).len() == after[t].members@.len()
        &&& after[t].members@.len() > 0
        &&& after[t].members@[0] == after[t].representative
    } by {
        if t == s {
            assert(after[t].members@[0] == before[t].members@[0]);
        }
    }
    assert forall|t: int, k: int| 0 <= t < after.len() && 0 <= k < after[t].members@.len() implies {
        let pb = #[trigger] origin2[t][k];
        &&& 0 <= pb < genomes.len()
        &&& genomes[pb] == after[t].members@[k]
        &&& owner2[pb] == t
    } by {
        if t != s || k < m {
            assert(origin2[t][k] == origin[t][k]);
            assert(after[t].members@[k] == before[t].members@[k]);
            assert(origin[t][k] != p);
        }
    }
    assert forall|t: int, k1: int, k2: int|
        0 <= t < after.len() && 0 <= k1 < after[t].members@.len() && 0 <= k2 < after[t].members@.len() && k1 != k2
            implies #[trigger] origin2[t][k1] != #[trigger] origin2[t][k2] by {
        if t == s && k1 == m {
            assert(owner[origin[t][k2]] == t);
        } else if t == s && k2 == m {
            assert(owner[origin[t][k1]] == t);
        } else {
            assert(origin2[t][k1] == origin[t][k1]);
            assert(origin2[t][k2] == origin[t][k2]);
        }
    }
}

/// `g` represents one of `species`.
pub open spec fn is_representative(species: Seq<Species>, g: usize) -> bool {
    exists|s: int| 0 <= s < species.len() && (#[trigger] species[s]).representative == g
}

/// The species `old` lives on in `species`, under its id, with a
/// representative that `distance` found within the threshold of its old one.
pub open spec fn reseated<D, F: Fn(usize, usize) -> Option<D>>(species: Seq<Species>, old: Species, distance: F) -> bool {
    exists|s: int|
        0 <= s < species.len() && (#[trigger] species[s]).id == old.id && compatible(
            distance,
            species[s].representative,
            old.representative,
        )
}

/// No genome of `genomes` was left for `old`: each was found beyond the
/// threshold of its representative, or already represents a species.
pub open spec fn exhausted<D, F: Fn(usize, usize) -> Option<D>>(
    species: Seq<Species>,
    genomes: Seq<usize>,
    old: Species,
    distance: F,
) -> bool {
    forall|q: int|
        0 <= q < genomes.len() ==> distance.ensures((#[trigger] genomes[q], old.representative), None)
            || is_representative(species, genomes[q])
}

/// The representative of species `s` was found beyond the threshold of
/// every species listed before it: it had to found a species of its own.
pub open spec fn founded_apart<D, F: Fn(usize, usize) -> Option<D>>(species: Seq<Species>, s: int, distance: F) -> bool {
    forall|t: int|
        0 <= t < s ==> distance.ensures((species[s].representative, (#[trigger] species[t]).representative), None)
}

/// `b` extends `a`: the species of `a` keep their place, id, creation and
/// representative.
pub open spec fn same_heads(a: Seq<Species>, b: Seq<Species>) -> bool {
    &&& a.len() <= b.len()
    &&& forall|s: int|
        0 <= s < a.len() ==> (#[trigger] b[s]).id == a[s].id && b[s].representative == a[s].representative
            && b[s].created == a[s].created
}

/// What the species of `a` say of representatives, reseating and founding
/// carries over to an extension `b`.
proof fn lemma_same_heads<D, F: Fn(usize, usize) -> Option<D>>(
    a: Seq<Species>,
    b: Seq<Species>,
    genomes: Seq<usize>,
    previous: Seq<Species>,
    distance: F,
)
    requires
        same_heads(a, b),
    ensures
        forall|g: usize| is_representative(a, g) ==> #[trigger] is_representative(b, g),
        forall|t: int|
            0 <= t < previous.len() && (reseated(a, previous[t], distance) || exhausted(a, genomes, previous[t], distance))
                ==> #[trigger] reseated(b, previous[t], distance) || exhausted(b, genomes, previous[t], distance),
        forall|s: int| 0 <= s < a.len() && founded_apart(a, s, distance) ==> #[trigger] founded_apart(b, s, distance),
{
    assert forall|g: usize| is_representative(a, g) implies #[trigger] is_representative(b, g) by {
        let s = choose|s: int| 0 <= s < a.len() && (#[trigger] a[s]).representative == g;
        assert(b[s].representative == g);
    }
    assert forall|t: int|
        0 <= t < previous.len() && (reseated(a, previous[t], distance) || exhausted(a, genomes, previous[t], distance))
            implies #[trigger] reseated(b, previous[t], distance) || exhausted(b, genomes, previous[t], distance) by {
        if reseated(a, previous[t], distance) {
            let s = choose|s: int|
                0 <= s < a.len() && (#[trigger] a[s]).id == previous[t].id && compatible(
                    distance,
                    a[s].representative,
                    previous[t].representative,
                );
            assert(b[s].id == previous[t].id);
        } else {
            assert forall|q: int| 0 <= q < genomes.len() implies distance.ensures((#[trigger] genomes[q], previous[t].representative), None)
                || is_representative(b, genomes[q]) by {
                if is_representative(a, genomes[q]) {
                    let s = choose|s: int| 0 <= s < a.len() && (#[trigger] a[s]).representative == genomes[q];
                    assert(b[s].representative == genomes[q]);
                }
            }
        }
    }
    assert forall|s: int| 0 <= s < a.len() && founded_apart(a, s, distance) implies #[trigger] founded_apart(b, s, distance) by {
        assert forall|t: int| 0 <= t < s implies distance.ensures((b[s].representative, (#[trigger] b[t]).representative), None) by {
            assert(distance.ensures((a[s].representative, a[t].representative), None));
        }
    }
}

/// Among the genomes at positions not yet `taken`, the one closest to
/// `representative` within the threshold, by its position.
fn closest_genome<D: Copy, F: Fn(usize, usize) -> Option<D>, L: Fn(D, D) -> bool>(
    genomes: &Vec<usize>,
    taken: &Vec<bool>,
    representative: usize,
    distance: &F,
    closer: &L,
) -> (r: Option<usize>)
    requires
        taken@.len() == genomes@.len(),
        forall|a: usize, b: usize| distance.requires((a, b)),
        forall|x: D, y: D| closer.requires((x, y)),
    ensures
        r is Some ==> r->0 < genomes@.len() && !taken@[r->0 as int] && compatible(
            *distance,
            genomes@[r->0 as int],
            representative,
        ),
        r is None ==> forall|q: int|
            0 <= q < genomes@.len() && !taken@[q] ==> distance.ensures((#[trigger] genomes@[q], representative), None),
{
    let mut best: Option<(usize, D)> = None;
    let mut p: usize = 0;
    while p < genomes.len()
        invariant
            p <= genomes@.len(),
            taken@.len() == genomes@.len(),
            forall|a: usize, b: usize| distance.requires((a, b)),
            forall|x: D, y: D| closer.requires((x, y)),
            best is Some ==> (best->0).0 < genomes@.len() && !taken@[(best->0).0 as int]
                && distance.ensures((genomes@[(best->0).0 as int], representative), Some((best->0).1)),
            best is None ==> forall|q: int|
                0 <= q < p && !taken@[q] ==> distance.ensures((#[trigger] genomes@[q], representative), None),
        decreases genomes@.len() - p,
    {
        if !taken[p] {
            match distance(genomes[p], representative) {
                Some(d) => {
                    let better = match best {
                        Some((_, b)) => closer(d, b),
                        None => true,
                    };
                    if better {
                        best = Some((p, d));
                    }
                },
                None => {},
            }
        }
        p += 1;
    }
    match best {
        Some((p, d)) => {
            assert(distance.ensures((genomes@[p as int], representative), Some(d)));
            Some(p)
        },
        None => None,
    }
}

/// Among `species`, the one whose representative is closest to `genome`
/// within the threshold, by its index.
fn closest_species<D: Copy, F: Fn(usize, usize) -> Option<D>, L: Fn(D, D) -> bool>(
    species: &Vec<Species>,
    genome: usize,
    distance: &F,
    closer: &L,
) -> (r: Option<usize>)
    requires
        forall|a: usize, b: usize| distance.requires((a, b)),
        forall|x: D, y: D| closer.requires((x, y)),
    ensures
        r is Some ==> r->0 < species@.len() && compatible(*distance, genome, species@[r->0 as int].representative),
        r is None ==> forall|s: int|
            0 <= s < species@.len() ==> distance.ensures((genome, (#[trigger] species@[s]).representative), None),
{
    let mut best: Option<(usize, D)> = None;
    let mut s: usize = 0;
    while s < species.len()
        invariant
            s <= species@.len(),
            forall|a: usize, b: usize| distance.requires((a, b)),
            forall|x: D, y: D| closer.requires((x, y)),
            best is Some ==> (best->0).0 < species@.len() && distance.ensures(
                (genome, species@[(best->0).0 as int].representative),
                Some((best->0).1),
            ),
            best is None ==> forall|t: int|
                0 <= t < s ==> distance.ensures((genome, (#[trigger] species@[t]).representative), None),
        decreases species@.len() - s,
    {
        match distance(genome, species[s].representative) {
            Some(d) => {
                let better = match best {
                    Some((_, b)) => closer(d, b),
                    None => true,
                };
                if better {
                    best = Some((s, d));
                }
            },
            None => {},
        }
        s += 1;
    }
    match best {
        Some((s, d)) => {
            assert(distance.ensures((genome, species@[s as int].representative), Some(d)));
            Some(s)
        },
        None => None,
    }
}

/// Sorts the genomes of a generation into species. Each species of
/// `previous` takes as its new representative, and sole member so far, the
/// closest genome not yet taken that is within the threshold, or is dropped
/// when there is none. Every other genome joins the species whose
/// representative is closest within the threshold, or founds a new species
/// with the next free id. `distance(g, r)` is `Some` exactly when `g` is
/// within the threshold of `r`, and `closer` orders what it returns.
/// Returns the species and the next free id. Every genome lands in exactly
/// one species; a previous species lives on exactly when a compatible genome
/// was left for it, and a genome founds a species only when every
/// representative before it was found beyond the threshold.
#[verifier::spinoff_prover]
pub fn speciate<D: Copy, F: Fn(usize, usize) -> Option<D>, L: Fn(D, D) -> bool>(
    previous: &Vec<Species>,
    genomes: &Vec<usize>,
    generation: usize,
    next_id: usize,
    distance: &F,
    closer: &L,
) -> (r: (Vec<Species>, usize))
    requires
        genomes@.no_duplicates(),
        next_id + genomes@.len() <= usize::MAX,
        forall|t: int| 0 <= t < previous@.len() ==> (#[trigger] previous@[t]).id < next_id,
        forall|a: usize, b: usize| distance.requires((a, b)),
        forall|x: D, y: D| closer.requires((x, y)),
    ensures
        partitions(r.0@, genomes@),
        members_compatible(*distance, r.0@),
        forall|t: int|
            0 <= t < previous@.len() ==> reseated(r.0@, #[trigger] previous@[t], *distance) || exhausted(
                r.0@,
                genomes@,
                previous@[t],
                *distance,
            ),
        forall|s: int|
            0 <= s < r.0@.len() && (#[trigger] r.0@[s]).created == generation && next_id <= r.0@[s].id
                ==> founded_apart(r.0@, s, *distance),
        next_id <= r.1,
        forall|s: int|
            0 <= s < r.0@.len() ==> (exists|t: int|
                0 <= t < previous@.len() && (#[trigger] r.0@[s]).id == previous@[t].id && r.0@[s].created
                    == previous@[t].created) || (r.0@[s].created == generation && next_id <= r.0@[s].id < r.1),
{
    let n = genomes.len();
    let mut taken: Vec<bool> = Vec::new();
    let mut p: usize = 0;
    while p < n
        invariant
            p <= n,
            taken@.len() == p,
            forall|q: int| 0 <= q < p ==> !#[trigger] taken@[q],
        decreases n - p,
    {
        taken.push(false);
        p += 1;
    }
    let mut result: Vec<Species> = Vec::new();
    let ghost mut owner: Seq<int> = Seq::new(n as nat, |q: int| -1);
    let ghost mut origin: Seq<Seq<int>> = Seq::empty();
    let mut t: usize = 0;
    while t < previous.len()
        invariant
            t <= previous@.len(),
            n == genomes@.len(),
            taken@.len() == n,
            forall|a: usize, b: usize| distance.requires((a, b)),
            forall|x: D, y: D| closer.requires((x, y)),
            assignment(result@, genomes@, owner, origin),
            forall|q: int| 0 <= q < n ==> (#[trigger] taken@[q] <==> owner[q] >= 0),
            forall|s: int|
                0 <= s < result@.len() ==> exists|u: int|
                    0 <= u < previous@.len() && (#[trigger] result@[s]).id == previous@[u].id && result@[s].created
                        == previous@[u].created,
            forall|s: int| 0 <= s < result@.len() ==> (#[trigger] result@[s]).members@.len() == 1,
            forall|s: int| 0 <= s < result@.len() ==> (#[trigger] result@[s]).id < next_id,
            forall|t2: int| 0 <= t2 < previous@.len() ==> (#[trigger] previous@[t2]).id < next_id,
            forall|q: int| 0 <= q < n && #[trigger] taken@[q] ==> is_representative(result@, genomes@[q]),
            forall|t2: int|
                0 <= t2 < t ==> reseated(result@, #[trigger] previous@[t2], *distance) || exhausted(
                    result@,
                    genomes@,
                    previous@[t2],
                    *distance,
                ),
        decreases previous@.len() - t,
    {
        let old = &previous[t];
        let ghost before = result@;
        let ghost taken_before = taken@;
        match closest_genome(genomes, &taken, old.representative, distance, closer) {
            Some(q) => {
                let g = genomes[q];
                let mut members: Vec<usize> = Vec::new();
                members.push(g);
                let s = result.len();
                proof {
                    owner = owner.update(q as int, s as int);
                    origin = origin.push(seq![q as int]);
                }
                result.push(Species { id: old.id, created: old.created, representative: g, members });
                taken.set(q, true);
                proof {
                    assert(result@[s as int].members@[0] == g);
                    assert(result@[s as int].members@.contains(g));
                    assert forall|s2: int, k: int|
                        0 <= s2 < result@.len() && 0 <= k < result@[s2].members@.len() implies {
                        let pb = #[trigger] origin[s2][k];
                        &&& 0 <= pb < genomes@.len()
                        &&& genomes@[pb] == result@[s2].members@[k]
                        &&& owner[pb] == s2
                    } by {
                        if s2 < s {
                            assert(origin[s2][k] != q);
                        }
                    }
                    assert forall|u: int| 0 <= u < n && #[trigger] owner[u] >= 0 implies result@[owner[u]].members@.contains(
                        genomes@[u],
                    ) by {
                        if u != q {
                            assert(result@[owner[u]] == result@.drop_last()[owner[u]]);
                        }
                    }
                    assert(result@[s as int].id == previous@[t as int].id);
                    assert(same_heads(before, result@));
                    lemma_same_heads(before, result@, genomes@, previous@, *distance);
                    assert(reseated(result@, previous@[t as int], *distance)) by {
                        assert(result@[s as int].representative == g);
                    }
                    assert forall|u: int| 0 <= u < n && #[trigger] taken@[u] implies is_representative(result@, genomes@[u]) by {
                        if u == q {
                            assert(result@[s as int].representative == genomes@[u]);
                        } else {
                            assert(taken_before[u]);
                            assert(is_representative(before, genomes@[u]));
                        }
                    }
                    assert forall|t2: int|
                        0 <= t2 < t + 1 implies reseated(result@, #[trigger] previous@[t2], *distance) || exhausted(
                            result@,
                            genomes@,
                            previous@[t2],
                            *distance,
                        ) by {
                        if t2 < t {
                            assert(reseated(before, previous@[t2], *distance) || exhausted(before, genomes@, previous@[t2], *distance));
                        }
                    }
                }
            },
            None => {
                proof {
                    assert(exhausted(result@, genomes@, previous@[t as int], *distance)) by {
                        assert forall|u: int| 0 <= u < n implies distance.ensures((#[trigger] genomes@[u], previous@[t as int].representative), None)
                            || is_representative(result@, genomes@[u]) by {
                            if taken@[u] {
                            }
                        }
                    }
                }
            },
        }
        t += 1;
    }
    let mut next = next_id;
    let mut p: usize = 0;
    while p < n
        invariant
            p <= n,
            n == genomes@.len(),
            genomes@.no_duplicates(),
            taken@.len() == n,
            next_id <= next <= next_id + p,
            next_id + n <= usize::MAX,
            forall|a: usize, b: usize| distance.requires((a, b)),
            forall|x: D, y: D| closer.requires((x, y)),
            assignment(result@, genomes@, owner, origin),
            forall|q: int| 0 <= q < n ==> (#[trigger] taken@[q] <==> owner[q] >= 0),
            forall|q: int| 0 <= q < p ==> #[trigger] taken@[q],
            forall|s: int|
                0 <= s < result@.len() ==> (exists|u: int|
                    0 <= u < previous@.len() && (#[trigger] result@[s]).id == previous@[u].id && result@[s].created
                        == previous@[u].created) || (result@[s].created == generation && next_id <= result@[s].id < next),
            members_compatible(*distance, result@),
            forall|t2: int|
                0 <= t2 < previous@.len() ==> reseated(result@, #[trigger] previous@[t2], *distance) || exhausted(
                    result@,
                    genomes@,
                    previous@[t2],
                    *distance,
                ),
            forall|s: int|
                0 <= s < result@.len() && (#[trigger] result@[s]).created == generation && next_id <= result@[s].id
                    ==> founded_apart(result@, s, *distance),
        decreases n - p,
    {
        if !taken[p] {
            let g = genomes[p];
            let ghost before = result@;
            match closest_species(&result, g, distance, closer) {
                Some(s) => {
                    let mut sp = result[s].clone_species();
                    let ghost old_members = sp.members@;
                    sp.members.push(g);
                    let ghost old_owner = owner;
                    let ghost old_origin = origin;
                    proof {
                        owner = owner.update(p as int, s as int);
                        origin = origin.update(s as int, origin[s as int].push(p as int));
                    }
                    result.set(s, sp);
                    proof {
                        assert(result@[s as int].members@ == old_members.push(g));
                        lemma_join(before, result@, genomes@, old_owner, old_origin, p as int, s as int);
                        assert(result@[s as int].id == before[s as int].id);
                        assert forall|s2: int|
                            0 <= s2 < result@.len() implies (exists|u: int|
                                0 <= u < previous@.len() && (#[trigger] result@[s2]).id == previous@[u].id
                                    && result@[s2].created == previous@[u].created) || (result@[s2].created
                                == generation && next_id <= result@[s2].id < next) by {
                            assert(result@[s2].id == before[s2].id && result@[s2].created == before[s2].created);
                        }
                        assert(same_heads(before, result@));
                        lemma_same_heads(before, result@, genomes@, previous@, *distance);
                        assert forall|s2: int|
                            0 <= s2 < result@.len() && (#[trigger] result@[s2]).created == generation && next_id <= result@[s2].id
                                implies founded_apart(result@, s2, *distance) by {
                            assert(before[s2].created == generation && next_id <= before[s2].id);
                        }
                        assert forall|t2: int|
                            0 <= t2 < previous@.len() implies reseated(result@, #[trigger] previous@[t2], *distance) || exhausted(
                                result@,
                                genomes@,
                                previous@[t2],
                                *distance,
                            ) by {
                            assert(reseated(before, previous@[t2], *distance) || exhausted(before, genomes@, previous@[t2], *distance));
                        }
                    }
                },
                None => {
                    let s = result.len();
                    proof {
                        owner = owner.update(p as int, s as int);
                        origin = origin.push(seq![p as int]);
                    }
                    result.push(Species::new(next, generation, g));
                    next = next + 1;
                    proof {
                        assert(result@[s as int].members@[0] == g);
                        assert(result@[s as int].members@.contains(g));
                        assert forall|s2: int, k: int|
                            0 <= s2 < result@.len() && 0 <= k < result@[s2].members@.len() implies {
                            let pb = #[trigger] origin[s2][k];
                            &&& 0 <= pb < genomes@.len()
                            &&& genomes@[pb] == result@[s2].members@[k]
                            &&& owner[pb] == s2
                        } by {
                            if s2 < s {
                                assert(origin[s2][k] != p);
                            }
                        }
                        assert forall|u: int| 0 <= u < n && #[trigger] owner[u] >= 0 implies result@[owner[u]].members@.contains(
                            genomes@[u],
                        ) by {
                            if u != p {
                                assert(result@[owner[u]] == before[owner[u]]);
                            }
                        }
                        assert forall|s2: int|
                            0 <= s2 < result@.len() implies (exists|u: int|
                                0 <= u < previous@.len() && (#[trigger] result@[s2]).id == previous@[u].id
                                    && result@[s2].created == previous@[u].created) || (result@[s2].created
                                == generation && next_id <= result@[s2].id < next) by {
                            if s2 < s {
                                assert(result@[s2] == before[s2]);
                            }
                        }
                        assert(assignment(result@, genomes@, owner, origin));
                        assert(same_heads(before, result@));
                        lemma_same_heads(before, result@, genomes@, previous@, *distance);
                        assert(founded_apart(result@, s as int, *distance)) by {
                            assert forall|t2: int| 0 <= t2 < s implies distance.ensures(
                                (result@[s as int].representative, (#[trigger] result@[t2]).representative),
                                None,
                            ) by {
                                assert(result@[t2] == before[t2]);
                            }
                        }
                        assert forall|s2: int|
                            0 <= s2 < result@.len() && (#[trigger] result@[s2]).created == generation && next_id <= result@[s2].id
                                implies founded_apart(result@, s2, *distance) by {
                            if s2 < s {
                                assert(before[s2].created == generation && next_id <= before[s2].id);
                            }
                        }
                        assert forall|t2: int|
                            0 <= t2 < previous@.len() implies reseated(result@, #[trigger] previous@[t2], *distance) || exhausted(
                                result@,
                                genomes@,
                                previous@[t2],
                                *distance,
                            ) by {
                            assert(reseated(before, previous@[t2], *distance) || exhausted(before, genomes@, previous@[t2], *distance));
                        }
                    }
                },
            }
            taken.set(p, true);
        }
        p += 1;
    }
    proof {
        assert forall|q: int| 0 <= q < n implies #[trigger] owner[q] >= 0 by {
            assert(taken@[q]);
        }
        lemma_assignment_partitions(result@, genomes@, owner, origin);
        assert(members_compatible(*distance, result@));
    }
    (result, next)
}

/// Species `id` ranks at position `keep` or later in `ranked`.
pub open spec fn ranked_beyond(ranked: Seq<usize>, keep: int, id: usize) -> bool {
    exists|j: int| keep <= j < ranked.len() && #[trigger] ranked[j] == id
}

/// `b` is a copy of `a`.
pub open spec fn same_species(a: Species, b: Species) -> bool {
    &&& a.id == b.id
    &&& a.created == b.created
    &&& a.representative == b.representative
    &&& a.members@ == b.members@
}

/// Retires stagnant species. `ranked` lists the ids of the stagnant species
/// from the highest adjusted fitness down; all but the first `keep` of them
/// are removed, and every other species stays, in order.
#[verifier::spinoff_prover]
pub fn retire_stagnant(species: &Vec<Species>, ranked: &Vec<usize>, keep: usize) -> (r: Vec<Species>)
    ensures
        forall|k: int|
            0 <= k < r@.len() ==> !ranked_beyond(ranked@, keep as int, (#[trigger] r@[k]).id) && exists|u: int|
                0 <= u < species@.len() && same_species(r@[k], #[trigger] species@[u]),
        forall|t: int|
            0 <= t < species@.len() && !ranked_beyond(ranked@, keep as int, (#[trigger] species@[t]).id)
                ==> exists|k: int| 0 <= k < r@.len() && same_species(#[trigger] r@[k], species@[t]),
{
    let mut kept: Vec<Species> = Vec::new();
    let mut t: usize = 0;
    while t < species.len()
        invariant
            t <= species@.len(),
            forall|k: int|
                0 <= k < kept@.len() ==> !ranked_beyond(ranked@, keep as int, (#[trigger] kept@[k]).id) && exists|u: int|
                    0 <= u < species@.len() && same_species(kept@[k], #[trigger] species@[u]),
            forall|u: int|
                0 <= u < t && !ranked_beyond(ranked@, keep as int, (#[trigger] species@[u]).id) ==> exists|k: int|
                    0 <= k < kept@.len() && same_species(#[trigger] kept@[k], species@[u]),
        decreases species@.len() - t,
    {
        let id = species[t].id;
        let mut retired = false;
        let mut j: usize = keep;
        while j < ranked.len()
            invariant
                keep <= j,
                j <= ranked@.len() || j == keep,
                retired == exists|i: int| keep <= i < j && i < ranked@.len() && #[trigger] ranked@[i] == id,
            decreases ranked@.len() - j,
        {
            if ranked[j] == id {
                retired = true;
                assert(ranked@[j as int] == id);
            }
            j += 1;
        }
        assert(retired == ranked_beyond(ranked@, keep as int, species@[t as int].id));
        let ghost before = kept@;
        if !retired {
            kept.push(species[t].clone_species());
            proof {
                assert(same_species(kept@[before.len() as int], species@[t as int]));
            }
        }
        proof {
            assert forall|k: int|
                0 <= k < kept@.len() implies !ranked_beyond(ranked@, keep as int, (#[trigger] kept@[k]).id) && exists|u: int|
                    0 <= u < species@.len() && same_species(kept@[k], #[trigger] species@[u]) by {
                if k < before.len() {
                    assert(kept@[k] == before[k]);
                } else {
                    assert(same_species(kept@[k], species@[t as int]));
                }
            }
            assert forall|u: int|
                0 <= u < t + 1 && !ranked_beyond(ranked@, keep as int, (#[trigger] species@[u]).id) implies exists|k: int|
                    0 <= k < kept@.len() && same_species(#[trigger] kept@[k], species@[u]) by {
                if u < t {
                    let k = choose|k: int| 0 <= k < before.len() && same_species(#[trigger] before[k], species@[u]);
                    assert(kept@[k] == before[k]);
                } else {
                    assert(same_species(kept@[before.len() as int], species@[u]));
                }
            }
        }
        t += 1;
    }
    assert forall|k: int|
        0 <= k < kept@.len() implies !ranked_beyond(ranked@, keep as int, (#[trigger] kept@[k]).id) && exists|u: int|
            0 <= u < species@.len() && same_species(kept@[k], #[trigger] species@[u]) by {}
    kept
}

/// After retirement, a species that ranked among the stagnant ones is one
/// of the first `keep` of them: every stagnant species is either retired or
/// among the `keep` best by adjusted fitness.
pub proof fn lemma_stagnant_survivors_are_protected(kept: Seq<Species>, ranked: Seq<usize>, keep: int, k: int)
    requires
        0 <= k < kept.len(),
        !ranked_beyond(ranked, keep, kept[k].id),
        ranked.contains(kept[k].id),
    ensures
        exists|j: int| 0 <= j < keep && j < ranked.len() && ranked[j] == kept[k].id,
{
    let j = choose|j: int| 0 <= j < ranked.len() && ranked[j] == kept[k].id;
    assert(!(keep <= j < ranked.len() && ranked[j] == kept[k].id));
}

impl Species {
    /// A species founded in `generation` by `representative`, its only
    /// member.
    pub fn new(id: usize, generation: usize, representative: usize) -> (r: Species)
        ensures
            r.id == id,
            r.created == generation,
            r.representative == representative,
            r.members@ == seq![representative],
    {
        let mut members: Vec<usize> = Vec::new();
        members.push(representative);
        assert(members@ =~= seq![representative]);
        Species { id, created: generation, representative, members }
    }

    /// A copy of the species.
    pub fn clone_species(&self) -> (r: Species)
        ensures
            r.id == self.id,
            r.created == self.created,
            r.representative == self.representative,
            r.members@ == self.members@,
    {
        let mut members: Vec<usize> = Vec::new();
        let mut k: usize = 0;
        while k < self.members.len()
            invariant
                k <= self.members@.len(),
                members@ == self.members@.subrange(0, k as int),
            decreases self.members@.len() - k,
        {
            members.push(self.members[k]);
            k += 1;
            assert(members@ =~= self.members@.subrange(0, k as int));
        }
        assert(members@ =~= self.members@);
        Species { id: self.id, created: self.created, representative: self.representative, members }
    }
}

} // verus!

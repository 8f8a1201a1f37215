use vstd::prelude::*;

verus! {

/// The sum of `weights`.
pub open spec fn total(weights: Seq<u64>) -> int
    decreases weights.len(),
{
    if weights.len() == 0 {
        0
    } else {
        total(weights.drop_last()) + weights.last()
    }
}

/// The offspring budget of a species of weight `w` when `weights_total` is
/// shared among `population` places: its share, rounded down.
pub open spec fn share(w: int, population: int, weights_total: int) -> int {
    (w * population) / weights_total
}

/// The budgets that `weights` receive, summed.
pub open spec fn total_share(weights: Seq<u64>, population: int, weights_total: int) -> int
    decreases weights.len(),
{
    if weights.len() == 0 {
        0
    } else {
        total_share(weights.drop_last(), population, weights_total) + share(
            weights.last() as int,
            population,
            weights_total,
        )
    }
}

/// Rounding each share down loses less than one place per species: the
/// budgets of a prefix of `k` species lie within `k` of their exact share.
proof fn lemma_total_share_bounds(weights: Seq<u64>, population: int, weights_total: int)
    requires
        weights_total > 0,
        population >= 0,
    ensures
        total_share(weights, population, weights_total) * weights_total <= total(weights) * population,
        total(weights) * population - weights.len() * weights_total <= total_share(weights, population, weights_total)
            * weights_total,
        weights.len() > 0 ==> total(weights) * population - weights.len() * weights_total < total_share(
            weights,
            population,
            weights_total,
        ) * weights_total,
        total(weights) >= 0,
    decreases weights.len(),
{
    if weights.len() > 0 {
        let rest = weights.drop_last();
        lemma_total_share_bounds(rest, population, weights_total);
        let x = weights.last() as int * population;
        let q = x / weights_total;
        assert(q * weights_total <= x < (q + 1) * weights_total) by (nonlinear_arith)
            requires
                weights_total > 0,
                q == x / weights_total,
        ;
        let b = total_share(rest, population, weights_total);
        let t = total(rest);
        assert(total(weights) == t + weights.last());
        assert(total(weights) * population == t * population + x) by (nonlinear_arith)
            requires
                total(weights) == t + weights.last(),
                x == weights.last() as int * population,
        ;
        assert((b + q) * weights_total == b * weights_total + q * weights_total) by (nonlinear_arith);
        assert(weights.len() * weights_total == rest.len() * weights_total + weights_total) by (nonlinear_arith)
            requires
                weights.len() == rest.len() + 1,
        ;
        assert(x >= 0) by (nonlinear_arith)
            requires
                x == weights.last() as int * population,
                population >= 0,
        ;
        assert(total_share(weights, population, weights_total) == b + q);
        assert((q + 1) * weights_total == q * weights_total + weights_total) by (nonlinear_arith);
        assert(total_share(weights, population, weights_total) * weights_total == b * weights_total + q * weights_total);
        assert(total(weights) * population - weights.len() * weights_total == (t * population - rest.len() * weights_total)
            + x - weights_total);
    }
}

/// Budgets that share `population` places among species in proportion to
/// their weights, each rounded down, together lose less than one place per
/// species.
pub proof fn lemma_budgets_near_population(weights: Seq<u64>, population: nat)
    requires
        total(weights) > 0,
    ensures
        population - weights.len() < total_share(weights, population as int, total(weights)) <= population,
{
    let w = total(weights);
    lemma_total_share_bounds(weights, population as int, w);
    let b = total_share(weights, population as int, w);
    assert(b <= population) by (nonlinear_arith)
        requires
            b * w <= w * population,
            w > 0,
    ;
    assert(population - weights.len() < b) by (nonlinear_arith)
        requires
            w * population - weights.len() * w < b * w,
            w > 0,
    ;
}

/// The offspring budget of every species: `population` places shared in
/// proportion to the weights, each share rounded down. `None` when every
/// weight is zero.
pub fn offspring_budgets(weights: &Vec<u64>, population: usize) -> (r: Option<Vec<usize>>)
    ensures
        r is None <==> total(weights@) == 0,
        r is Some ==> r->0@.len() == weights@.len() && forall|s: int|
            0 <= s < weights@.len() ==> #[trigger] r->0@[s] == share(weights@[s] as int, population as int, total(weights@)),
{
    let mut sum: u128 = 0;
    let mut i: usize = 0;
    while i < weights.len()
        invariant
            i <= weights@.len(),
            sum == total(weights@.subrange(0, i as int)),
            sum <= i * (u64::MAX as int),
            i <= usize::MAX,
        decreases weights@.len() - i,
    {
        proof {
            assert(weights@.subrange(0, i + 1).drop_last() =~= weights@.subrange(0, i as int));
            assert((i + 1) * (u64::MAX as int) == i * (u64::MAX as int) + u64::MAX) by (nonlinear_arith);
            assert(i * (u64::MAX as int) <= (usize::MAX as int) * (u64::MAX as int)) by (nonlinear_arith)
                requires
                    i <= usize::MAX,
            ;
            assert((usize::MAX as int) * (u64::MAX as int) <= (u64::MAX as int) * (u64::MAX as int)) by (nonlinear_arith)
                requires
                    usize::MAX <= u64::MAX,
            ;
        }
        sum = sum + weights[i] as u128;
        i += 1;
    }
    assert(weights@.subrange(0, i as int) =~= weights@);
    if sum == 0 {
        return None;
    }
    let mut budgets: Vec<usize> = Vec::new();
    let mut s: usize = 0;
    while s < weights.len()
        invariant
            s <= weights@.len(),
            sum == total(weights@),
            sum > 0,
            budgets@.len() == s,
            forall|k: int| 0 <= k < s ==> #[trigger] budgets@[k] == share(weights@[k] as int, population as int, total(weights@)),
        decreases weights@.len() - s,
    {
        proof {
            lemma_weight_below_total(weights@, s as int);
        }
        let w = weights[s] as u128;
        let p = population as u128;
        assert(w * p <= (u64::MAX as int) * (u64::MAX as int)) by (nonlinear_arith)
            requires
                w <= u64::MAX,
                p <= u64::MAX,
        ;
        let budget = w * p / sum;
        assert(budget <= p) by (nonlinear_arith)
            requires
                budget == (w as int * p as int) / (sum as int),
                w <= sum,
                sum > 0,
                p >= 0,
        ;
        budgets.push(budget as usize);
        s += 1;
    }
    Some(budgets)
}

/// A single weight is at most the total.
proof fn lemma_weight_below_total(weights: Seq<u64>, s: int)
    requires
        0 <= s < weights.len(),
    ensures
        weights[s] <= total(weights),
    decreases weights.len(),
{
    lemma_total_nonnegative(weights.drop_last());
    if s < weights.len() - 1 {
        lemma_weight_below_total(weights.drop_last(), s);
    }
}

proof fn lemma_total_nonnegative(weights: Seq<u64>)
    ensures
        total(weights) >= 0,
    decreases weights.len(),
{
    if weights.len() > 0 {
        lemma_total_nonnegative(weights.drop_last());
    }
}

} // verus!

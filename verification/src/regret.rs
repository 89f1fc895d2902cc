//! Regret matching in exact arithmetic: the strategy of a hand at a node is
//! proportional to the positive regrets of its actions, and uniform where no
//! regret is positive.
//!
//! A strategy is given as one weight for each action and their total; the
//! probability of an action is its weight divided by the total.

use vstd::prelude::*;

verus! {

/// The positive part of a regret.
pub open spec fn positive_part(x: int) -> int {
    if x > 0 {
        x
    } else {
        0
    }
}

/// The positive parts of the first `n` regrets, added up.
pub open spec fn positive_sum(regrets: Seq<i64>, n: int) -> int
    decreases n,
{
    if n <= 0 {
        0
    } else {
        positive_sum(regrets, n - 1) + positive_part(regrets[n - 1] as int)
    }
}

/// The first `n` weights, added up.
pub open spec fn weight_sum(weights: Seq<u64>, n: int) -> int
    decreases n,
{
    if n <= 0 {
        0
    } else {
        weight_sum(weights, n - 1) + weights[n - 1]
    }
}

/// The weight that regret matching gives the action `a`.
pub open spec fn matched_weight(regrets: Seq<i64>, a: int) -> int {
    if positive_sum(regrets, regrets.len() as int) > 0 {
        positive_part(regrets[a] as int)
    } else {
        1
    }
}

/// The total of the weights that regret matching gives.
pub open spec fn matched_total(regrets: Seq<i64>) -> int {
    if positive_sum(regrets, regrets.len() as int) > 0 {
        positive_sum(regrets, regrets.len() as int)
    } else {
        regrets.len() as int
    }
}

/// A strategy: the probability of the action `a` is `weights[a] / total`.
#[derive(Debug)]
pub struct Mix {
    pub weights: Vec<u64>,
    pub total: u128,
}

/// The positive regrets add up to no more than their number allows.
pub proof fn lemma_positive_sum_bounds(regrets: Seq<i64>, n: int)
    requires
        0 <= n,
    ensures
        0 <= positive_sum(regrets, n) <= n * 0x7fff_ffff_ffff_ffff,
    decreases n,
{
    if n > 0 {
        lemma_positive_sum_bounds(regrets, n - 1);
    }
}

/// The weights of regret matching add up to their total: the probabilities
/// of the actions of a hand are not negative and add up to one.
pub proof fn lemma_matched_weights_add_up(regrets: Seq<i64>, weights: Seq<u64>, n: int)
    requires
        0 <= n <= regrets.len(),
        weights.len() == regrets.len(),
        forall|a: int| 0 <= a < regrets.len() ==> #[trigger] weights[a] == matched_weight(regrets, a),
    ensures
        weight_sum(weights, n) == (if positive_sum(regrets, regrets.len() as int) > 0 {
            positive_sum(regrets, n)
        } else {
            n
        }),
    decreases n,
{
    if n > 0 {
        lemma_matched_weights_add_up(regrets, weights, n - 1);
    }
}

/// The strategy that regret matching gives for the regrets of the actions of
/// one hand.
pub fn regret_matching(regrets: &[i64]) -> (mix: Mix)
    ensures
        mix.weights@.len() == regrets@.len(),
        forall|a: int|
            0 <= a < regrets@.len() ==> #[trigger] mix.weights@[a] == matched_weight(regrets@, a),
        mix.total == matched_total(regrets@),
        mix.total == weight_sum(mix.weights@, regrets@.len() as int),
        regrets@.len() > 0 ==> mix.total > 0,
{
    let n = regrets.len();
    let mut sum: u128 = 0;
    let mut i: usize = 0;
    while i < n
        invariant
            i <= n == regrets@.len(),
            sum == positive_sum(regrets@, i as int),
            sum <= i * 0x7fff_ffff_ffff_ffff,
        decreases n - i,
    {
        let x = regrets[i];
        if x > 0 {
            sum = sum + x as u128;
        }
        i += 1;
    }
    let mut weights: Vec<u64> = Vec::new();
    let mut a: usize = 0;
    while a < n
        invariant
            a <= n == regrets@.len(),
            sum == positive_sum(regrets@, n as int),
            weights@.len() == a,
            forall|k: int| 0 <= k < a ==> #[trigger] weights@[k] == matched_weight(regrets@, k),
        decreases n - a,
    {
        let x = regrets[a];
        let w: u64 = if sum == 0 {
            1
        } else if x > 0 {
            x as u64
        } else {
            0
        };
        weights.push(w);
        a += 1;
    }
    proof {
        lemma_matched_weights_add_up(regrets@, weights@, n as int);
    }
    let total: u128 = if sum == 0 {
        n as u128
    } else {
        sum
    };
    Mix { weights, total }
}

} // verus!

use vstd::prelude::*;
use vstd::arithmetic::power::{
    lemma_pow_adds, lemma_pow_increases, lemma_pow_multiplies, lemma_pow_positive, pow,
};
use crate::game_tree::{is_reward, GameTree};
use crate::trainer::Trainer;

verus! {

/// The discount factor is `DISCOUNT_NUM / DISCOUNT_DEN`.
pub const DISCOUNT_NUM: u128 = 99;

pub const DISCOUNT_DEN: u128 = 100;

/// The longest trajectory whose returns are computed exactly in 128 bits.
pub const MAX_RETURN_STEPS: usize = 19;

/// A discounted return held exactly: `numerator / 100^exponent`.
#[derive(Clone, Copy, PartialEq, Eq, Structural, Debug)]
pub struct DiscountedReturn {
    pub numerator: i128,
    pub exponent: u32,
}

/// `sum(k in j..n) rewards[k] * 99^(k-i) * 100^(n-1-k)`: over the common
/// denominator `100^(n-1-i)`, the rewards from `j` on, each discounted by
/// `0.99` for every step past `i`.
pub open spec fn discounted_numerator(rewards: Seq<i8>, i: int, j: int) -> int
    decreases rewards.len() - j,
{
    if j < i || j >= rewards.len() {
        0
    } else {
        rewards[j] * pow(DISCOUNT_NUM as int, (j - i) as nat) * pow(
            DISCOUNT_DEN as int,
            (rewards.len() - 1 - j) as nat,
        ) + discounted_numerator(rewards, i, j + 1)
    }
}

/// The return at step `i` of a trajectory with these rewards:
/// `sum(j in i..n) rewards[j] * 0.99^(j-i)`, held exactly.
pub open spec fn return_at(rewards: Seq<i8>, i: int) -> DiscountedReturn {
    DiscountedReturn {
        numerator: discounted_numerator(rewards, i, i) as i128,
        exponent: (rewards.len() - 1 - i) as u32,
    }
}

/// A trajectory whose rewards are all 0 has a return of exactly 0 at every
/// step.
pub proof fn lemma_zero_rewards_zero_returns(rewards: Seq<i8>, i: int)
    requires
        forall|j: int| 0 <= j < rewards.len() ==> #[trigger] rewards[j] == 0,
        0 <= i < rewards.len(),
    ensures
        return_at(rewards, i).numerator == 0,
{
    lemma_zero_tail(rewards, i, i);
}

proof fn lemma_zero_tail(rewards: Seq<i8>, i: int, j: int)
    requires
        0 <= i,
        forall|k: int| 0 <= k < rewards.len() ==> #[trigger] rewards[k] == 0,
    ensures
        discounted_numerator(rewards, i, j) == 0,
    decreases rewards.len() - j,
{
    if i <= j && j < rewards.len() {
        lemma_zero_tail(rewards, i, j + 1);
        assert(rewards[j] == 0);
        let p = pow(DISCOUNT_NUM as int, (j - i) as nat);
        let q = pow(DISCOUNT_DEN as int, (rewards.len() - 1 - j) as nat);
        assert(0 * p * q == 0) by (nonlinear_arith);
    }
}

proof fn lemma_discount_below_one(a: nat)
    ensures
        0 <= pow(DISCOUNT_NUM as int, a) <= pow(DISCOUNT_DEN as int, a),
    decreases a,
{
    reveal(pow);
    if a > 0 {
        lemma_discount_below_one((a - 1) as nat);
        let p = pow(DISCOUNT_NUM as int, (a - 1) as nat);
        let q = pow(DISCOUNT_DEN as int, (a - 1) as nat);
        assert(99 * p <= 100 * q) by (nonlinear_arith)
            requires
                0 <= p <= q,
        ;
        assert(0 <= 99 * p) by (nonlinear_arith)
            requires
                0 <= p,
        ;
    }
}

/// The weight of a reward `a` steps past the start, over a denominator
/// covering `a + b` steps, is at most that denominator.
proof fn lemma_weight_bound(a: nat, b: nat)
    ensures
        0 <= pow(DISCOUNT_NUM as int, a) * pow(DISCOUNT_DEN as int, b) <= pow(
            DISCOUNT_DEN as int,
            a + b,
        ),
        pow(DISCOUNT_DEN as int, a + b) <= pow(DISCOUNT_DEN as int, (MAX_RETURN_STEPS - 1) as nat) || a
            + b > MAX_RETURN_STEPS - 1,
        pow(DISCOUNT_DEN as int, (MAX_RETURN_STEPS - 1) as nat) == 1_000_000_000_000_000_000_000_000_000_000_000_000,
{
    lemma_discount_below_one(a);
    lemma_pow_positive(DISCOUNT_DEN as int, b);
    lemma_pow_adds(DISCOUNT_DEN as int, a, b);
    let p = pow(DISCOUNT_NUM as int, a);
    let q = pow(DISCOUNT_DEN as int, a);
    let w = pow(DISCOUNT_DEN as int, b);
    assert(0 <= p * w <= q * w) by (nonlinear_arith)
        requires
            0 <= p <= q,
            w > 0,
    ;
    if a + b <= MAX_RETURN_STEPS - 1 {
        lemma_pow_increases(DISCOUNT_DEN as nat, a + b, (MAX_RETURN_STEPS - 1) as nat);
    }
    reveal_with_fuel(pow, 19);
}

impl Trainer {
    /// The positions of a trajectory paired with their discounted returns:
    /// the return at step `i` is `sum(j in i..n) rewards[j] * 0.99^(j-i)`.
    pub fn calculate_data(&self, tree: GameTree) -> (r: (Vec<Vec<i8>>, Vec<DiscountedReturn>))
        requires
            tree.wf(),
            tree.rewards.len() <= MAX_RETURN_STEPS,
        ensures
            r.0@ == tree.positions@,
            r.1.len() == tree.rewards.len(),
            forall|i: int| 0 <= i < r.1.len() ==> #[trigger] r.1[i] == return_at(tree.rewards@, i),
    {
        let rewards = tree.get_rewards();
        let n = rewards.len();
        let mut predicted_rewards: Vec<DiscountedReturn> = Vec::new();
        let mut i: usize = 0;
        while i < n
            invariant
                n == rewards.len() == tree.rewards.len(),
                rewards@ == tree.rewards@,
                tree.wf(),
                n <= MAX_RETURN_STEPS,
                i <= n,
                predicted_rewards.len() == i,
                forall|k: int|
                    0 <= k < i ==> #[trigger] predicted_rewards[k] == return_at(rewards@, k),
            decreases n - i,
        {
            let ghost top = pow(DISCOUNT_DEN as int, (n - 1 - i) as nat);
            proof {
                lemma_weight_bound(0, (n - 1 - i) as nat);
            }
            let mut reward_to_be_pushed: i128 = 0;
            let mut j: usize = i;
            while j < n
                invariant
                    n == rewards.len() == tree.rewards.len(),
                    rewards@ == tree.rewards@,
                    tree.wf(),
                    n <= MAX_RETURN_STEPS,
                    i <= j <= n,
                    i < n,
                    top == pow(DISCOUNT_DEN as int, (n - 1 - i) as nat),
                    top <= 1_000_000_000_000_000_000_000_000_000_000_000_000,
                    reward_to_be_pushed + discounted_numerator(rewards@, i as int, j as int)
                        == discounted_numerator(rewards@, i as int, i as int),
                    -((j - i) * top) <= reward_to_be_pushed <= (j - i) * top,
                decreases n - j,
            {
                proof {
                    lemma_weight_bound((j - i) as nat, (n - 1 - j) as nat);
                    lemma_pow_increases(DISCOUNT_DEN as nat, 0, (n - 1 - j) as nat);
                    lemma_pow_increases(DISCOUNT_DEN as nat, 0, (j - i) as nat);
                    lemma_discount_below_one((j - i) as nat);
                    lemma_pow_increases(DISCOUNT_DEN as nat, (j - i) as nat, (n - 1 - i) as nat);
                    lemma_pow_increases(DISCOUNT_DEN as nat, (n - 1 - j) as nat, (n - 1 - i) as nat);
                    assert(((j - i) as nat + (n - 1 - j) as nat) == (n - 1 - i) as nat);
                    assert(is_reward(tree.rewards[j as int]));
                }
                let discount = self.power(DISCOUNT_NUM, (j - i) as u32);
                let scale = self.power(DISCOUNT_DEN, (n - 1 - j) as u32);
                let weight = discount * scale;
                let rj = rewards[j];
                proof {
                    assert(-(weight as int) <= rj * weight <= weight) by (nonlinear_arith)
                        requires
                            -1 <= rj <= 1,
                            weight >= 0,
                    ;
                    assert((j - i) * top + top == (j + 1 - i) * top) by (nonlinear_arith);
                    assert((j + 1 - i) * top <= 19_000_000_000_000_000_000_000_000_000_000_000_000)
                        by (nonlinear_arith)
                        requires
                            0 <= j + 1 - i <= 19,
                            0 <= top <= 1_000_000_000_000_000_000_000_000_000_000_000_000,
                    ;
                    assert(weight <= top);
                    assert(rj * (discount * scale) == (rj * discount) * scale) by (nonlinear_arith);
                    assert(discounted_numerator(rewards@, i as int, j as int) == rj * weight
                        + discounted_numerator(rewards@, i as int, j + 1));
                }
                reward_to_be_pushed = reward_to_be_pushed + (rj as i128) * (weight as i128);
                j = j + 1;
            }
            predicted_rewards.push(
                DiscountedReturn { numerator: reward_to_be_pushed, exponent: (n - 1 - i) as u32 },
            );
            i = i + 1;
        }
        (tree.positions, predicted_rewards)
    }

    /// `x` to the power `n`, by repeated squaring.
    pub fn power(&self, x: u128, n: u32) -> (r: u128)
        requires
            pow(x as int, n as nat) <= u128::MAX,
        ensures
            r == pow(x as int, n as nat),
    {
        let mut result: u128 = 1;
        let mut base: u128 = x;
        let mut exp: u32 = n;
        proof {
            reveal(pow);
        }
        while exp > 0
            invariant
                result * pow(base as int, exp as nat) == pow(x as int, n as nat),
                pow(x as int, n as nat) <= u128::MAX,
                base == 0 || result >= 1,
            decreases exp,
        {
            let ghost e0 = exp;
            let ghost h = (exp / 2) as nat;
            proof {
                lemma_pow_multiplies(base as int, 2, h);
                reveal(pow);
                assert(pow(base as int, 2) == base * base) by {
                    assert(pow(base as int, 1) == base * pow(base as int, 0));
                }
                if base > 0 {
                    lemma_pow_positive(base as int, h);
                    lemma_pow_positive(base as int, e0 as nat);
                    lemma_pow_increases(base as nat, 1, e0 as nat);
                    assert(pow(base as int, 1) == base * pow(base as int, 0));
                }
            }
            if exp % 2 == 1 {
                proof {
                    assert(pow(base as int, e0 as nat) == base * pow(base as int, (e0 - 1) as nat));
                    assert((e0 - 1) as nat == 2 * h);
                    if base > 0 {
                        assert(result * base >= 1) by (nonlinear_arith)
                            requires
                                base >= 1,
                                result >= 1,
                        ;
                        assert(result * base <= result * pow(base as int, e0 as nat)) by (nonlinear_arith)
                            requires
                                base <= pow(base as int, e0 as nat),
                                result >= 1,
                        ;
                    }
                    assert(result * pow(base as int, e0 as nat) == (result * base) * pow(base as int, 2 * h))
                        by (nonlinear_arith)
                        requires
                            pow(base as int, e0 as nat) == base * pow(base as int, 2 * h),
                    ;
                }
                result = result * base;
            } else {
                assert(e0 as nat == 2 * h);
            }
            exp = exp / 2;
            if exp > 0 {
                proof {
                    if base > 0 {
                        lemma_pow_increases(base as nat, 2, 2 * h);
                        assert(result >= 1);
                        assert(base * base <= result * pow(base as int, 2 * h)) by (nonlinear_arith)
                            requires
                                base * base <= pow(base as int, 2 * h),
                                result >= 1,
                                pow(base as int, 2 * h) >= 0,
                        ;
                    }
                }
                base = base * base;
            }
        }
        result
    }
}

} // verus!

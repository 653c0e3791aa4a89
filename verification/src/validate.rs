//! Validation of the fixed-`n` sieve against brute-force trial division, for
//! `n` small enough that `k*2^n +/- 1` fits in 128 bits.
use vstd::arithmetic::div_mod::*;
use vstd::arithmetic::power2::*;
use vstd::bits::{lemma_u64_pow2_no_overflow, lemma_u64_shl_is_mul};
use vstd::prelude::*;

use crate::fixed_n::{
    align_k_start, bit_is_set, bitset_bit, build_k_sieve_plan, lemma_offsets_are_sieved, lemma_plan_primes_bounded,
    lemma_sieved_offsets_stop, plan_fits, plan_from_primes, sieve_bit_after, sieve_k_batch, sieved_offsets,
    spec_align_k_start, survivor_offsets, KPlan,
};
use crate::number_theory::is_prime;
use crate::primes::{lemma_primes_below_props, prime_sieve, primes_below};
use crate::sieve_laws::{lemma_sieve_is_trial_division, survives_trial_division, trial_blocks};

verus! {

/// The plan `build_k_sieve_plan(n, limit)` makes.
pub open spec fn limit_plan(n: int, limit: int) -> Seq<KPlan> {
    plan_from_primes(n, primes_below(limit + 1), 0)
}

/// How many of `k_start + 6 * idx`, `idx < m`, survive trial division up to `limit`.
pub open spec fn exact_count(n: nat, k_start: int, limit: int, m: int) -> nat
    decreases m,
{
    if m <= 0 {
        0
    } else {
        exact_count(n, k_start, limit, m - 1) + if survives_trial_division(n, k_start + 6 * (m - 1), limit) {
            1nat
        } else {
            0nat
        }
    }
}

/// For how many `idx < m` the sieve and trial division disagree.
pub open spec fn mismatch_count_below(n: nat, k_start: int, k_count: int, limit: int, m: int) -> nat
    decreases m,
{
    if m <= 0 {
        0
    } else {
        let plan = limit_plan(n as int, limit);
        mismatch_count_below(n, k_start, k_count, limit, m - 1) + if sieve_bit_after(
            n as int,
            k_start,
            k_count,
            plan,
            plan.len() as int,
            m - 1,
        ) != survives_trial_division(n, k_start + 6 * (m - 1), limit) {
            1nat
        } else {
            0nat
        }
    }
}

/// The outcome of a validation run.
#[derive(Clone, Copy, Debug)]
pub struct ValidationResult {
    pub n: u64,
    pub k_start: u64,
    pub k_count: usize,
    pub sieve_limit: usize,
    pub predicted_survivors: usize,
    pub exact_survivors: usize,
    pub mismatch_count: usize,
}

/// Whether trial division by the primes `5 <= p` of `primes` leaves the pair
/// `(p_val, p_val + 2)` alone (a prime equal to a member does not count).
fn brute_survives(p_val: u128, primes: &Vec<u32>, Ghost(n): Ghost<nat>, Ghost(k): Ghost<int>, Ghost(limit): Ghost<int>)
    -> (r: bool)
    requires
        0 <= limit <= u32::MAX,
        primes@ == primes_below(limit + 1),
        p_val == k * pow2(n) - 1,
        p_val + 2 <= u128::MAX,
    ensures
        r == survives_trial_division(n, k, limit),
{
    let q_val = p_val + 2;
    let mut alive = true;
    let mut j: usize = 0;
    proof {
        lemma_primes_below_props(limit + 1);
    }
    while j < primes.len() && alive
        invariant
            j <= primes@.len(),
            primes@ == primes_below(limit + 1),
            0 <= limit <= u32::MAX,
            p_val == k * pow2(n) - 1,
            q_val == p_val + 2,
            forall|i: int| 0 <= i < primes@.len() ==> is_prime(#[trigger] primes@[i] as int) && primes@[i] < limit + 1,
            alive == (forall|t: int| 0 <= t < j && 5 <= primes@[t] ==> !#[trigger] trial_blocks(n, k, primes@[t] as int)),
            !alive ==> exists|t: int| 0 <= t < j && 5 <= primes@[t] && #[trigger] trial_blocks(n, k, primes@[t] as int),
        decreases primes@.len() - j + if alive { 1int } else { 0int },
    {
        let prime = primes[j];
        if prime >= 5 {
            let pr = prime as u128;
            if (p_val % pr == 0 && p_val != pr) || (q_val % pr == 0 && q_val != pr) {
                proof {
                    assert(trial_blocks(n, k, primes@[j as int] as int));
                }
                alive = false;
            }
        }
        j += 1;
    }
    proof {
        lemma_primes_below_props(limit + 1);
        if alive {
            assert forall|p: int| 5 <= p <= limit && is_prime(p) implies !#[trigger] trial_blocks(n, k, p) by {
                assert(primes_below(limit + 1).contains(p as u32));
                let t = choose|t: int| 0 <= t < primes@.len() && primes@[t] == p as u32;
            }
        } else {
            let t = choose|t: int| 0 <= t < j && 5 <= primes@[t] && #[trigger] trial_blocks(n, k, primes@[t] as int);
            assert(5 <= primes@[t] as int <= limit);
        }
    }
    alive
}

/// Sieves `k_count` candidates from the aligned `k_start` with the plan up to
/// `sieve_limit`, and checks every one against trial division of
/// `k*2^n +/- 1` by the primes from 5 to `sieve_limit`; the two always agree.
pub fn validate_k_sieve(n: u64, k_start: u64, k_count: usize, sieve_limit: usize) -> (r: ValidationResult)
    requires
        n < 63,
        sieve_limit <= u32::MAX,
        sieve_limit + 0x10000 <= usize::MAX,
        k_count + 63 <= usize::MAX,
        k_count + sieve_limit <= usize::MAX,
        (spec_align_k_start(k_start as int) + 6 * k_count) * pow2(n as nat) + 1 <= u128::MAX,
    ensures
        ({
            let aligned = spec_align_k_start(k_start as int);
            &&& r.n == n
            &&& r.k_start == aligned
            &&& r.k_count == k_count
            &&& r.sieve_limit == sieve_limit
            &&& r.predicted_survivors == sieved_offsets(
                n as int,
                aligned,
                k_count as int,
                limit_plan(n as int, sieve_limit as int),
                k_count as int,
            ).len()
            &&& r.exact_survivors == exact_count(n as nat, aligned, sieve_limit as int, k_count as int)
            &&& r.mismatch_count == mismatch_count_below(
                n as nat,
                aligned,
                k_count as int,
                sieve_limit as int,
                k_count as int,
            )
            &&& r.mismatch_count == 0
            &&& r.predicted_survivors == r.exact_survivors
        }),
{
    let k_start = align_k_start(k_start);
    let plan = build_k_sieve_plan(n, sieve_limit);
    proof {
        lemma_plan_primes_bounded(n as int, sieve_limit as int, 0);
        assert(plan_fits(plan@, k_count as int));
    }
    let primes = prime_sieve(sieve_limit);
    let alive = sieve_k_batch(n, k_start, k_count, plan.as_slice());
    proof {
        lemma_u64_pow2_no_overflow(n as nat);
        lemma_u64_shl_is_mul(1, n);
    }
    let two_n = (1u64 << n) as u128;
    let ghost plan_s = limit_plan(n as int, sieve_limit as int);
    let mut exact_survivors: usize = 0;
    let mut mismatches: usize = 0;
    let mut idx: usize = 0;
    while idx < k_count
        invariant
            idx <= k_count,
            n < 63,
            two_n == pow2(n as nat),
            0 <= sieve_limit <= u32::MAX,
            primes@ == primes_below(sieve_limit + 1),
            plan@ == plan_s,
            plan_s == limit_plan(n as int, sieve_limit as int),
            alive@.len() == (k_count + 63) / 64,
            forall|t: int|
                0 <= t < k_count ==> #[trigger] bitset_bit(alive@, t) == sieve_bit_after(
                    n as int,
                    k_start as int,
                    k_count as int,
                    plan@,
                    plan@.len() as int,
                    t,
                ),
            (k_start + 6 * k_count) * pow2(n as nat) + 1 <= u128::MAX,
            k_start >= 3,
            exact_survivors == exact_count(n as nat, k_start as int, sieve_limit as int, idx as int),
            mismatches == mismatch_count_below(n as nat, k_start as int, k_count as int, sieve_limit as int, idx as int),
            exact_survivors <= idx,
            mismatches <= idx,
        decreases k_count - idx,
    {
        let k = k_start as u128 + 6 * idx as u128;
        proof {
            assert(k * pow2(n as nat) <= (k_start + 6 * k_count) * pow2(n as nat)) by (nonlinear_arith)
                requires k <= k_start + 6 * k_count, pow2(n as nat) >= 0;
            lemma_pow2_pos(n as nat);
            assert(k >= 3);
            assert(k * pow2(n as nat) >= 1) by (nonlinear_arith)
                requires k >= 3, pow2(n as nat) > 0;
        }
        let p = k * two_n - 1;
        let brute_alive = brute_survives(
            p,
            &primes,
            Ghost(n as nat),
            Ghost(k as int),
            Ghost(sieve_limit as int),
        );
        if brute_alive {
            exact_survivors += 1;
        }
        proof {
            lemma_fundamental_div_mod((k_count + 63) as int, 64);
            assert(idx < 64 * alive@.len());
        }
        let bit = bit_is_set(alive.as_slice(), idx);
        proof {
            assert(bit == sieve_bit_after(n as int, k_start as int, k_count as int, plan_s, plan_s.len() as int, idx as int));
            assert(k == k_start + 6 * idx);
            assert(limit_plan((n as nat) as int, sieve_limit as int) == plan_s);
            assert(mismatch_count_below(n as nat, k_start as int, k_count as int, sieve_limit as int, idx + 1)
                == mismatch_count_below(n as nat, k_start as int, k_count as int, sieve_limit as int, idx as int)
                + if bit != brute_alive { 1nat } else { 0nat });
        }
        if bit != brute_alive {
            mismatches += 1;
        }
        idx += 1;
    }
    proof {
        lemma_fundamental_div_mod((k_count + 63) as int, 64);
        lemma_offsets_are_sieved(alive@, n as int, k_start as int, k_count as int, plan@, 64 * alive@.len() as int);
        lemma_sieved_offsets_stop(n as int, k_start as int, k_count as int, plan@, 64 * alive@.len() as int);
    }
    let predicted = survivor_offsets(alive.as_slice(), k_count);
    proof {
        lemma_validation_agrees(n as nat, k_start as int, k_count as int, sieve_limit as int);
    }
    ValidationResult {
        n,
        k_start,
        k_count,
        sieve_limit,
        predicted_survivors: predicted.len(),
        exact_survivors,
        mismatch_count: mismatches,
    }
}

/// Validation of an aligned batch finds no mismatch, and the sieve's count of
/// survivors is the trial-division count.
pub proof fn lemma_validation_agrees(n: nat, k_start: int, k_count: int, limit: int)
    requires
        0 <= limit <= u32::MAX,
        k_start >= 0,
        k_start % 6 == 3,
        0 <= k_count,
    ensures
        mismatch_count_below(n, k_start, k_count, limit, k_count) == 0,
        sieved_offsets(n as int, k_start, k_count, limit_plan(n as int, limit), k_count).len() == exact_count(
            n,
            k_start,
            limit,
            k_count,
        ),
{
    lemma_validation_prefix(n, k_start, k_count, limit, k_count);
}

proof fn lemma_validation_prefix(n: nat, k_start: int, k_count: int, limit: int, m: int)
    requires
        0 <= limit <= u32::MAX,
        k_start >= 0,
        k_start % 6 == 3,
        0 <= m <= k_count,
    ensures
        mismatch_count_below(n, k_start, k_count, limit, m) == 0,
        sieved_offsets(n as int, k_start, k_count, limit_plan(n as int, limit), m).len() == exact_count(
            n,
            k_start,
            limit,
            m,
        ),
    decreases m,
{
    if m > 0 {
        lemma_validation_prefix(n, k_start, k_count, limit, m - 1);
        lemma_sieve_is_trial_division(n, k_start, k_count, limit, m - 1);
    }
}

} // verus!

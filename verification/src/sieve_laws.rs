//! What the fixed-`n` sieve computes, in terms of divisibility.
use vstd::arithmetic::div_mod::*;
use vstd::arithmetic::mul::*;
use vstd::arithmetic::power::*;
use vstd::arithmetic::power2::*;
use vstd::prelude::*;

use crate::arith::lemma_mod_inv_prime_is_inverse;
use crate::fixed_n::{
    entry_blocks, entry_hits, is_exception_offset, ks_of_offsets, lemma_exception_index_iff, lemma_plan_primes_bounded,
    plan_from_primes, sieve_bit_after, sieved_offsets, spec_batch_k0, spec_plan_entry, spec_self_prime_exception,
    spec_survives_plan, survivors_of, KPlan,
};
use crate::number_theory::{is_prime, lemma_euclid};
use crate::primes::{lemma_primes_below_props, primes_below};

verus! {

proof fn lemma_odd_prime_not_dividing_pow2(p: int, n: nat)
    requires
        is_prime(p),
        p > 2,
    ensures
        pow(2, n) % p != 0,
    decreases n,
{
    reveal(pow);
    if n == 0 {
        lemma_small_mod(1, p as nat);
    } else {
        lemma_odd_prime_not_dividing_pow2(p, (n - 1) as nat);
        lemma_pow_positive(2, (n - 1) as nat);
        if pow(2, n) % p == 0 {
            lemma_euclid(p, 2, pow(2, (n - 1) as nat));
            lemma_small_mod(2, p as nat);
        }
    }
}

/// From `t * inv == 1 (mod p)`: `k * t == 1 (mod p)` exactly when `k == inv (mod p)`.
proof fn lemma_unit_solution(k: int, t: int, inv: int, p: int)
    requires
        p > 1,
        0 <= inv < p,
        (t * inv) % p == 1,
    ensures
        (k * t) % p == 1 <==> k % p == inv,
        (k * t) % p == p - 1 <==> k % p == (p - inv) % p,
{
    // k == k * (t * inv) (mod p)
    lemma_mul_mod_noop_right(k, t * inv, p);
    lemma_mul_is_associative(k, t, inv);
    lemma_mul_mod_noop_left(k * t, inv, p);
    lemma_mul_basics(k);
    assert((k * (t * inv)) % p == k % p);
    if (k * t) % p == 1 {
        assert(((k * t) % p * inv) % p == inv % p);
        lemma_small_mod(inv as nat, p as nat);
    }
    if (k * t) % p == p - 1 {
        // k == (p - 1) * inv == -inv (mod p)
        assert(((p - 1) * inv) % p == (p - inv) % p) by {
            assert((p - 1) * inv == p * (inv - 1) + (p - inv)) by (nonlinear_arith);
            lemma_mod_multiples_vanish(inv - 1, p - inv, p);
        }
    }
    if k % p == inv {
        lemma_mul_mod_noop_left(k, t, p);
        assert((inv * t) % p == 1) by {
            lemma_mul_is_commutative(inv, t);
        }
    }
    if k % p == (p - inv) % p {
        lemma_mul_mod_noop_left(k, t, p);
        lemma_mul_mod_noop_left(p - inv, t, p);
        assert((p - inv) * t == p * t - inv * t) by (nonlinear_arith);
        lemma_mod_multiples_vanish(t, -(inv * t), p);
        assert(p * t - inv * t == t * p + (-(inv * t))) by (nonlinear_arith);
        assert((-(inv * t)) % p == p - 1) by {
            lemma_mul_is_commutative(inv, t);
            lemma_fundamental_div_mod(inv * t, p);
            let q = (inv * t) / p;
            assert(-(inv * t) == p * (-q - 1) + (p - 1)) by (nonlinear_arith)
                requires inv * t == p * q + 1;
            lemma_fundamental_div_mod_converse(-(inv * t), p, -q - 1, p - 1);
        }
    }
}

/// The entry that `build_k_sieve_plan` makes for a prime `p >= 5` is sound:
/// `inv6` inverts 6 modulo `p`, both residues are below `p`, and `k` hits one
/// of them exactly when `p` divides `k*2^n - 1` or `k*2^n + 1`.
pub proof fn lemma_plan_entry_sound(n: nat, p: int, k: int)
    requires
        is_prime(p),
        5 <= p <= u32::MAX,
        k >= 0,
    ensures
        ({
            let e = spec_plan_entry(n as int, p);
            &&& e.p == p
            &&& e.inv6 < p
            &&& (6 * e.inv6) % p == 1
            &&& e.bad1 < p
            &&& e.bad2 < p
            &&& ((k % p == e.bad1 || k % p == e.bad2) <==> ((k * pow2(n) - 1) % p == 0 || (k * pow2(
                n,
            ) + 1) % p == 0))
        }),
{
    let e = spec_plan_entry(n as int, p);
    // the inverse of 6
    assert(6int % p != 0) by {
        if p > 6 {
            lemma_small_mod(6, p as nat);
        } else {
            assert(p == 5 || p == 6);
            if p == 6 {
                assert(6int % 2 == 0);
            }
        }
    }
    lemma_mod_inv_prime_is_inverse(6, p);
    lemma_mod_bound(pow(6, (p - 2) as nat), p);
    // the inverse of 2^n
    lemma_pow2(n);
    lemma_odd_prime_not_dividing_pow2(p, n);
    let t = pow(2, n) % p;
    lemma_mod_bound(pow(2, n), p);
    lemma_pow_positive(2, n);
    assert(t % p != 0) by {
        lemma_mod_twice(pow(2, n), p);
    }
    lemma_mod_inv_prime_is_inverse(t, p);
    let inv = pow(t, (p - 2) as nat) % p;
    lemma_mod_bound(pow(t, (p - 2) as nat), p);
    assert(inv != 0) by {
        if inv == 0 {
            assert(t * inv == 0);
            lemma_small_mod(0, p as nat);
        }
    }
    let neg = p - inv;
    lemma_small_mod(neg as nat, p as nat);
    // k * 2^n == k * t (mod p)
    lemma_mul_mod_noop_right(k, pow(2, n), p);
    assert((k * pow(2, n)) % p == (k * t) % p);
    lemma_unit_solution(k, t, inv, p);
    let x = k * pow2(n);
    assert(x == k * pow(2, n));
    assert((x - 1) % p == 0 <==> x % p == 1) by {
        lemma_sub_mod_noop(x, 1, p);
        lemma_small_mod(1, p as nat);
        lemma_mod_bound(x, p);
        if x % p == 1 {
            lemma_small_mod(0, p as nat);
        }
        if (x - 1) % p == 0 {
            lemma_fundamental_div_mod(x - 1, p);
            lemma_fundamental_div_mod_converse(x, p, (x - 1) / p, 1);
        }
    }
    assert((x + 1) % p == 0 <==> x % p == p - 1) by {
        lemma_fundamental_div_mod(x, p);
        lemma_mod_bound(x, p);
        if x % p == p - 1 {
            assert(x + 1 == (x / p + 1) * p + 0) by (nonlinear_arith)
                requires x == p * (x / p) + x % p, x % p == p - 1;
            lemma_fundamental_div_mod_converse(x + 1, p, x / p + 1, 0);
        }
        if (x + 1) % p == 0 {
            lemma_fundamental_div_mod(x + 1, p);
            assert(x == ((x + 1) / p - 1) * p + (p - 1)) by (nonlinear_arith)
                requires x + 1 == p * ((x + 1) / p) + (x + 1) % p, (x + 1) % p == 0;
            lemma_fundamental_div_mod_converse(x, p, (x + 1) / p - 1, p - 1);
        }
    }
    assert(e.bad1 == inv || e.bad1 == neg);
    assert(e.bad2 == inv || e.bad2 == neg);
    assert(e.bad1 != e.bad2 ==> (e.bad1 == inv && e.bad2 == neg) || (e.bad1 == neg && e.bad2 == inv));
}

/// An entry of a built plan crosses out exactly the offsets whose `k` hits one of its residues.
proof fn lemma_entry_hits_residue(e: KPlan, k_start: int, idx: int)
    requires
        e.p > 1,
        (6 * e.inv6) % (e.p as int) == 1,
        e.bad1 < e.p,
        e.bad2 < e.p,
        k_start >= 0,
        idx >= 0,
    ensures
        entry_hits(e, k_start, idx) <==> ((k_start + 6 * idx) % (e.p as int) == e.bad1 || (k_start
            + 6 * idx) % (e.p as int) == e.bad2),
{
    let p = e.p as int;
    let inv6 = e.inv6 as int;
    lemma_hit_one(p, inv6, k_start, idx, e.bad1 as int);
    lemma_hit_one(p, inv6, k_start, idx, e.bad2 as int);
}

proof fn lemma_hit_one(p: int, inv6: int, k_start: int, idx: int, r: int)
    requires
        p > 1,
        (6 * inv6) % p == 1,
        0 <= r < p,
        k_start >= 0,
        idx >= 0,
    ensures
        idx % p == (((r + p - k_start % p) % p) * inv6) % p <==> (k_start + 6 * idx) % p == r,
{
    let d = (r + p - k_start % p) % p;
    let i0 = (d * inv6) % p;
    lemma_mod_bound(k_start, p);
    // d == r - k_start (mod p)
    assert(d == (r - k_start) % p) by {
        lemma_fundamental_div_mod(k_start, p);
        let q = k_start / p;
        assert(r + p - k_start % p == (r - k_start) + p * (q + 1)) by (nonlinear_arith)
            requires k_start == p * q + k_start % p;
        lemma_mod_multiples_vanish(q + 1, r - k_start, p);
        lemma_mul_is_commutative(p, q + 1);
    }
    if idx % p == i0 {
        // 6 * idx == 6 * d * inv6 == d (mod p)
        lemma_mul_mod_noop_right(6, idx, p);
        lemma_mul_mod_noop_right(6, d * inv6, p);
        lemma_mul_is_associative(6, d, inv6);
        lemma_mul_is_commutative(6, d);
        lemma_mul_is_associative(d, 6, inv6);
        lemma_mul_mod_noop_right(d, 6 * inv6, p);
        lemma_mul_basics(d);
        lemma_mod_bound(r - k_start, p);
        lemma_mod_twice(r - k_start, p);
        assert((6 * idx) % p == d % p);
        lemma_add_mod_noop(k_start, 6 * idx, p);
        lemma_add_mod_noop(k_start, r - k_start, p);
        lemma_small_mod(r as nat, p as nat);
    }
    if (k_start + 6 * idx) % p == r {
        // 6 * idx == r - k_start == d (mod p), so idx == d * inv6 (mod p)
        lemma_sub_mod_noop(k_start + 6 * idx, k_start, p);
        lemma_small_mod(r as nat, p as nat);
        lemma_sub_mod_noop(r, k_start, p);
        assert((6 * idx) % p == (r - k_start) % p);
        lemma_mul_mod_noop_left(6 * idx, inv6, p);
        lemma_mul_mod_noop_left(d, inv6, p);
        lemma_mod_twice(r - k_start, p);
        assert(((6 * idx) * inv6) % p == (d * inv6) % p);
        lemma_mul_is_commutative(6, idx);
        lemma_mul_is_associative(idx, 6, inv6);
        lemma_mul_mod_noop_right(idx, 6 * inv6, p);
        lemma_mul_basics(idx);
        assert(((6 * idx) * inv6) % p == idx % p);
    }
}

/// A plan entry as `build_k_sieve_plan` makes it: `inv6` inverts 6, both residues reduced.
pub open spec fn entry_well_formed(e: KPlan) -> bool {
    &&& e.p > 1
    &&& (6 * e.inv6) % (e.p as int) == 1
    &&& e.bad1 < e.p
    &&& e.bad2 < e.p
}

/// Every entry of a plan built from the primes up to `limit` is well formed.
pub proof fn lemma_built_plan_well_formed(n: int, limit: int, low_exclusive: int)
    requires
        0 <= n,
        0 <= limit <= u32::MAX,
    ensures
        forall|i: int|
            0 <= i < plan_from_primes(n, primes_below(limit + 1), low_exclusive).len()
                ==> #[trigger] entry_well_formed(plan_from_primes(n, primes_below(limit + 1), low_exclusive)[i]),
{
    let plan = plan_from_primes(n, primes_below(limit + 1), low_exclusive);
    lemma_plan_primes_bounded(n, limit, low_exclusive);
    assert forall|i: int| 0 <= i < plan.len() implies #[trigger] entry_well_formed(plan[i]) by {
        lemma_plan_entry_sound(n as nat, plan[i].p as int, 0);
    }
}

proof fn lemma_exception_offset_iff(n: int, e: KPlan, k_start: int, k_count: int, idx: int)
    requires
        e.p > 1,
        k_start >= 0,
        k_start % 6 == 3,
        0 <= idx < k_count,
    ensures
        is_exception_offset(n, e, k_start, k_count, idx) <==> spec_self_prime_exception(
            n,
            e.p as int,
            k_start + 6 * idx,
        ),
{
    let k = k_start + 6 * idx;
    lemma_exception_index_iff(n, e.p as int, k_start, k_count, e.p - 1, idx);
    lemma_exception_index_iff(n, e.p as int, k_start, k_count, e.p + 1, idx);
    assert(k % 6 == 3) by {
        lemma_mod_multiples_vanish(idx, k_start, 6);
        lemma_mul_is_commutative(6, idx);
    }
}

proof fn lemma_sieve_prefix(n: int, k_start: int, k_count: int, plan: Seq<KPlan>, idx: int, j: int)
    requires
        k_start >= 0,
        k_start % 6 == 3,
        0 <= idx < k_count,
        0 <= j <= plan.len(),
        forall|i: int| 0 <= i < plan.len() ==> #[trigger] entry_well_formed(plan[i]),
    ensures
        sieve_bit_after(n, k_start, k_count, plan, j, idx) == (forall|i: int|
            0 <= i < j ==> !#[trigger] entry_blocks(n, k_start + 6 * idx, plan[i])),
    decreases j,
{
    let k = k_start + 6 * idx;
    if j > 0 {
        lemma_sieve_prefix(n, k_start, k_count, plan, idx, j - 1);
        let e = plan[j - 1];
        assert(entry_well_formed(e));
        lemma_exception_offset_iff(n, e, k_start, k_count, idx);
        lemma_entry_hits_residue(e, k_start, idx);
        assert((entry_hits(e, k_start, idx) && !is_exception_offset(n, e, k_start, k_count, idx))
            == entry_blocks(n, k, e));
        let prev = forall|i: int| 0 <= i < j - 1 ==> !#[trigger] entry_blocks(n, k, plan[i]);
        let cur = forall|i: int| 0 <= i < j ==> !#[trigger] entry_blocks(n, k, plan[i]);
        if prev && !entry_blocks(n, k, e) {
            assert forall|i: int| 0 <= i < j implies !#[trigger] entry_blocks(n, k, plan[i]) by {
                if i < j - 1 {
                }
            }
        }
        if cur {
            assert(!entry_blocks(n, k, plan[j - 1]));
            assert forall|i: int| 0 <= i < j - 1 implies !#[trigger] entry_blocks(n, k, plan[i]) by {
                assert(!entry_blocks(n, k, plan[i]));
            }
        }
    }
}

/// With the batch aligned (`k_start == 3 (mod 6)`) and a well-formed plan,
/// the sieve keeps offset `idx` exactly when `candidate_survives_plan` would
/// keep `k = k_start + 6 * idx`: both apply the same residue test.
pub proof fn lemma_sieve_bit_is_survival(
    n: int,
    k_start: int,
    k_count: int,
    plan: Seq<KPlan>,
    idx: int,
)
    requires
        k_start >= 0,
        k_start % 6 == 3,
        0 <= idx < k_count,
        forall|i: int| 0 <= i < plan.len() ==> #[trigger] entry_well_formed(plan[i]),
    ensures
        sieve_bit_after(n, k_start, k_count, plan, plan.len() as int, idx) == spec_survives_plan(
            n,
            k_start + 6 * idx,
            plan,
        ),
{
    lemma_sieve_prefix(n, k_start, k_count, plan, idx, plan.len() as int);
}

/// The prime `p` rules out `k` by trial division: it divides `k*2^n - 1` or
/// `k*2^n + 1` without being that number.
pub open spec fn trial_blocks(n: nat, k: int, p: int) -> bool {
    ||| ((k * pow2(n) - 1) % p == 0 && k * pow2(n) - 1 != p)
    ||| ((k * pow2(n) + 1) % p == 0 && k * pow2(n) + 1 != p)
}

/// No prime `p` with `5 <= p <= limit` rules out `k` by trial division.
pub open spec fn survives_trial_division(n: nat, k: int, limit: int) -> bool {
    forall|p: int| 5 <= p <= limit && is_prime(p) ==> !#[trigger] trial_blocks(n, k, p)
}

proof fn lemma_blocks_is_trial(n: nat, k: int, p: int)
    requires
        is_prime(p),
        5 <= p <= u32::MAX,
        k >= 0,
    ensures
        entry_blocks(n as int, k, spec_plan_entry(n as int, p)) == trial_blocks(n, k, p),
{
    lemma_plan_entry_sound(n, p, k);
    let x = k * pow2(n);
    lemma_pow2_pos(n);
    assert(x >= 0) by (nonlinear_arith)
        requires x == k * pow2(n), k >= 0, pow2(n) > 0;
    if x == p + 1 || x == p - 1 {
        assert(k > 0) by (nonlinear_arith)
            requires x == k * pow2(n), x > 0, k >= 0;
        if n >= 63 {
            lemma2_to64_rest();
            if n > 63 {
                lemma_pow2_strictly_increases(63, n);
            }
            assert(x >= pow2(n)) by (nonlinear_arith)
                requires x == k * pow2(n), k >= 1, pow2(n) > 0;
        }
        assert(spec_self_prime_exception(n as int, p, k));
        if x == p + 1 {
            lemma_mod_add_multiples_vanish(2, p);
            lemma_small_mod(2, p as nat);
        } else {
            lemma_mod_add_multiples_vanish(-2, p);
            assert((-2 + p) % p == p - 2) by {
                lemma_small_mod((p - 2) as nat, p as nat);
            }
        }
    } else {
        assert(!spec_self_prime_exception(n as int, p, k));
    }
}

proof fn lemma_plan_from_primes_complete(n: int, primes: Seq<u32>, low_exclusive: int, p: u32)
    requires
        primes.contains(p),
        p >= 5,
        p > low_exclusive,
    ensures
        exists|i: int|
            0 <= i < plan_from_primes(n, primes, low_exclusive).len() && (#[trigger] plan_from_primes(
                n,
                primes,
                low_exclusive,
            )[i]).p == p,
    decreases primes.len(),
{
    let pl = plan_from_primes(n, primes, low_exclusive);
    let rest = primes.drop_last();
    if primes.last() == p {
        assert(pl[pl.len() - 1].p == p);
    } else {
        let k = choose|k: int| 0 <= k < primes.len() && primes[k] == p;
        assert(k < primes.len() - 1);
        assert(rest[k] == p);
        lemma_plan_from_primes_complete(n, rest, low_exclusive, p);
        let i = choose|i: int|
            0 <= i < plan_from_primes(n, rest, low_exclusive).len() && (#[trigger] plan_from_primes(
                n,
                rest,
                low_exclusive,
            )[i]).p == p;
        assert(pl[i] == plan_from_primes(n, rest, low_exclusive)[i]);
    }
}

/// Surviving the plan that `build_k_sieve_plan(n, limit)` makes is surviving
/// trial division of `k*2^n +/- 1` by every prime from 5 to `limit`.
pub proof fn lemma_plan_survival_is_trial_division(n: nat, k: int, limit: int)
    requires
        0 <= limit <= u32::MAX,
        k >= 0,
    ensures
        spec_survives_plan(n as int, k, plan_from_primes(n as int, primes_below(limit + 1), 0))
            == survives_trial_division(n, k, limit),
{
    let plan = plan_from_primes(n as int, primes_below(limit + 1), 0);
    lemma_plan_primes_bounded(n as int, limit, 0);
    lemma_primes_below_props(limit + 1);
    if spec_survives_plan(n as int, k, plan) {
        assert forall|p: int| 5 <= p <= limit && is_prime(p) implies !#[trigger] trial_blocks(
            n,
            k,
            p,
        ) by {
            assert(primes_below(limit + 1).contains(p as u32));
            lemma_plan_from_primes_complete(n as int, primes_below(limit + 1), 0, p as u32);
            let i = choose|i: int| 0 <= i < plan.len() && (#[trigger] plan[i]).p == p as u32;
            assert(!entry_blocks(n as int, k, plan[i]));
            lemma_blocks_is_trial(n, k, p);
        }
    }
    if survives_trial_division(n, k, limit) {
        assert forall|i: int| 0 <= i < plan.len() implies !#[trigger] entry_blocks(
            n as int,
            k,
            plan[i],
        ) by {
            let e = plan[i];
            lemma_blocks_is_trial(n, k, e.p as int);
        }
    }
}

/// The central fact of the fixed-`n` sieve: for an aligned batch and the plan
/// of `build_k_sieve_plan(n, limit)`, offset `idx` is left set exactly when
/// `k = k_start + 6 * idx` survives trial division of `k*2^n +/- 1` by every
/// prime from 5 to `limit` (a prime equal to one of the pair does not count).
pub proof fn lemma_sieve_is_trial_division(
    n: nat,
    k_start: int,
    k_count: int,
    limit: int,
    idx: int,
)
    requires
        0 <= limit <= u32::MAX,
        k_start >= 0,
        k_start % 6 == 3,
        0 <= idx < k_count,
    ensures
        sieve_bit_after(
            n as int,
            k_start,
            k_count,
            plan_from_primes(n as int, primes_below(limit + 1), 0),
            plan_from_primes(n as int, primes_below(limit + 1), 0).len() as int,
            idx,
        ) == survives_trial_division(n, k_start + 6 * idx, limit),
{
    let plan = plan_from_primes(n as int, primes_below(limit + 1), 0);
    lemma_built_plan_well_formed(n as int, limit, 0);
    lemma_sieve_bit_is_survival(n as int, k_start, k_count, plan, idx);
    lemma_plan_survival_is_trial_division(n, k_start + 6 * idx, limit);
}

/// No prime `p` with `low < p <= high` (and `p >= 5`) rules out `k` by trial division.
pub open spec fn survives_trial_division_above(n: nat, k: int, low: int, high: int) -> bool {
    forall|p: int| 5 <= p <= high && low < p && is_prime(p) ==> !#[trigger] trial_blocks(n, k, p)
}

/// Surviving the plan that `build_k_sieve_plan_range(n, low, high)` makes is
/// surviving trial division by every prime in `(low, high]` from 5 on.
pub proof fn lemma_range_plan_survival(n: nat, k: int, low: int, high: int)
    requires
        0 <= high <= u32::MAX,
        k >= 0,
    ensures
        spec_survives_plan(n as int, k, plan_from_primes(n as int, primes_below(high + 1), low))
            == survives_trial_division_above(n, k, low, high),
{
    let plan = plan_from_primes(n as int, primes_below(high + 1), low);
    lemma_plan_primes_bounded(n as int, high, low);
    lemma_primes_below_props(high + 1);
    if spec_survives_plan(n as int, k, plan) {
        assert forall|p: int| 5 <= p <= high && low < p && is_prime(p) implies !#[trigger] trial_blocks(n, k, p) by {
            assert(primes_below(high + 1).contains(p as u32));
            lemma_plan_from_primes_complete(n as int, primes_below(high + 1), low, p as u32);
            let i = choose|i: int| 0 <= i < plan.len() && (#[trigger] plan[i]).p == p as u32;
            assert(!entry_blocks(n as int, k, plan[i]));
            lemma_blocks_is_trial(n, k, p);
        }
    }
    if survives_trial_division_above(n, k, low, high) {
        assert forall|i: int| 0 <= i < plan.len() implies !#[trigger] entry_blocks(n as int, k, plan[i]) by {
            lemma_blocks_is_trial(n, k, plan[i].p as int);
        }
    }
}

/// The post-sieve completes the base sieve: surviving trial division up to
/// `low` and then by the primes above `low` up to `high` is surviving trial
/// division up to `high`.
pub proof fn lemma_post_sieve_composes(n: nat, k: int, low: int, high: int)
    requires
        low <= high,
    ensures
        (survives_trial_division(n, k, low) && survives_trial_division_above(n, k, low, high))
            == survives_trial_division(n, k, high),
{
    if survives_trial_division(n, k, low) && survives_trial_division_above(n, k, low, high) {
        assert forall|p: int| 5 <= p <= high && is_prime(p) implies !#[trigger] trial_blocks(n, k, p) by {
            if p <= low {
                assert(!trial_blocks(n, k, p));
            }
        }
    }
}

/// Filtering with a plan keeps exactly the listed values that survive it.
pub proof fn lemma_survivors_of_members(n: int, s: Seq<u64>, plan: Seq<KPlan>, x: u64)
    ensures
        survivors_of(n, s, plan).contains(x) <==> (s.contains(x) && spec_survives_plan(n, x as int, plan)),
    decreases s.len(),
{
    if s.len() > 0 {
        lemma_survivors_of_members(n, s.drop_last(), plan, x);
        let rest = survivors_of(n, s.drop_last(), plan);
        if s.drop_last().contains(x) {
            let i = choose|i: int| 0 <= i < s.drop_last().len() && s.drop_last()[i] == x;
            assert(s[i] == x);
        }
        if s.contains(x) && s.last() != x {
            let i = choose|i: int| 0 <= i < s.len() && s[i] == x;
            assert(s.drop_last()[i] == x);
        }
        if spec_survives_plan(n, s.last() as int, plan) {
            let cur = rest.push(s.last());
            assert(cur[rest.len() as int] == s.last());
            if rest.contains(x) {
                let i = choose|i: int| 0 <= i < rest.len() && rest[i] == x;
                assert(cur[i] == x);
            }
            if cur.contains(x) && s.last() != x {
                let i = choose|i: int| 0 <= i < cur.len() && cur[i] == x;
                assert(rest[i] == x);
            }
        }
    }
}

/// A pair `k*2^n - 1, k*2^n + 1` of primes survives trial division at any limit:
/// the sieve has no false negatives.
pub proof fn lemma_prime_pair_survives(n: nat, k: int, limit: int)
    requires
        is_prime(k * pow2(n) - 1),
        is_prime(k * pow2(n) + 1),
    ensures
        survives_trial_division(n, k, limit),
{
    assert forall|p: int| 5 <= p <= limit && is_prime(p) implies !#[trigger] trial_blocks(n, k, p) by {
        let x = k * pow2(n);
        if (x - 1) % p == 0 && x - 1 != p {
            assert(p < x - 1) by {
                if p > x - 1 {
                    lemma_small_mod((x - 1) as nat, p as nat);
                }
            }
        }
        if (x + 1) % p == 0 && x + 1 != p {
            assert(p < x + 1) by {
                if p > x + 1 {
                    lemma_small_mod((x + 1) as nat, p as nat);
                }
            }
        }
    }
}

/// The `k` among `k0, k0 + 6, ..., k0 + 6 * (count - 1)` that survive the plan, ascending.
pub open spec fn surviving_ks(n: int, k0: int, count: int, plan: Seq<KPlan>) -> Seq<u64>
    decreases count,
{
    if count <= 0 {
        seq![]
    } else if spec_survives_plan(n, k0 + 6 * (count - 1), plan) {
        surviving_ks(n, k0, count - 1, plan).push((k0 + 6 * (count - 1)) as u64)
    } else {
        surviving_ks(n, k0, count - 1, plan)
    }
}

/// For an aligned batch and a well-formed plan, the `k` of the sieved offsets
/// are the surviving `k`.
pub proof fn lemma_sieved_ks_survive(n: int, k0: int, count: int, plan: Seq<KPlan>, m: int)
    requires
        k0 >= 0,
        k0 % 6 == 3,
        0 <= m <= count <= u64::MAX,
        forall|i: int| 0 <= i < plan.len() ==> #[trigger] entry_well_formed(plan[i]),
    ensures
        ks_of_offsets(k0, sieved_offsets(n, k0, count, plan, m)) == surviving_ks(n, k0, m, plan),
    decreases m,
{
    if m > 0 {
        lemma_sieved_ks_survive(n, k0, count, plan, m - 1);
        lemma_sieve_bit_is_survival(n, k0, count, plan, m - 1);
        let prev = sieved_offsets(n, k0, count, plan, m - 1);
        if spec_survives_plan(n, k0 + 6 * (m - 1), plan) {
            let x = (m - 1) as u64;
            assert(ks_of_offsets(k0, prev.push(x)) =~= ks_of_offsets(k0, prev).push((k0 + 6 * x) as u64));
        }
    }
}

/// The survivors of `a + b` candidates from `k0` are those of the first `a`
/// followed by those of the `b` from `k0 + 6 * a`.
pub proof fn lemma_surviving_ks_split(n: int, k0: int, a: int, b: int, plan: Seq<KPlan>)
    requires
        0 <= a,
        0 <= b,
    ensures
        surviving_ks(n, k0, a + b, plan) == surviving_ks(n, k0, a, plan) + surviving_ks(n, k0 + 6 * a, b, plan),
    decreases b,
{
    if b == 0 {
        assert(surviving_ks(n, k0, a, plan) + surviving_ks(n, k0 + 6 * a, 0, plan) =~= surviving_ks(n, k0, a, plan));
    } else {
        lemma_surviving_ks_split(n, k0, a, b - 1, plan);
        let left = surviving_ks(n, k0, a, plan);
        let right = surviving_ks(n, k0 + 6 * a, b - 1, plan);
        assert(k0 + 6 * (a + b - 1) == k0 + 6 * a + 6 * (b - 1));
        if spec_survives_plan(n, k0 + 6 * (a + b - 1), plan) {
            let x = (k0 + 6 * (a + b - 1)) as u64;
            assert(left + right.push(x) =~= (left + right).push(x));
        }
    }
}

/// The survivors of batches `0 .. count` of `k_batch_size` candidates each
/// from `k_start`, one batch after another.
pub open spec fn batches_survivors(n: int, k_start: int, k_batch_size: int, plan: Seq<KPlan>, count: int) -> Seq<u64>
    decreases count,
{
    if count <= 0 {
        seq![]
    } else {
        batches_survivors(n, k_start, k_batch_size, plan, count - 1) + surviving_ks(
            n,
            spec_batch_k0(k_start, k_batch_size, count - 1),
            k_batch_size,
            plan,
        )
    }
}

/// Consecutive batches neither overlap nor leave a gap: batch `i + 1` starts
/// where batch `i` ends, and the survivors of batches `0 .. count`, one after
/// another, are the survivors of one batch of `count * k_batch_size`
/// candidates from the same start.
pub proof fn lemma_consecutive_batches(n: int, k_start: int, k_batch_size: int, plan: Seq<KPlan>, count: int)
    requires
        0 <= k_batch_size,
        0 <= count,
    ensures
        forall|i: int| #[trigger] spec_batch_k0(k_start, k_batch_size, i + 1) == spec_batch_k0(
            k_start,
            k_batch_size,
            i,
        ) + 6 * k_batch_size,
        batches_survivors(n, k_start, k_batch_size, plan, count) == surviving_ks(
            n,
            k_start,
            count * k_batch_size,
            plan,
        ),
    decreases count,
{
    assert forall|i: int| #[trigger] spec_batch_k0(k_start, k_batch_size, i + 1) == spec_batch_k0(
        k_start,
        k_batch_size,
        i,
    ) + 6 * k_batch_size by {
        assert(6 * k_batch_size * (i + 1) == 6 * k_batch_size * i + 6 * k_batch_size) by (nonlinear_arith);
    }
    if count == 0 {
        assert(count * k_batch_size == 0);
    } else {
        lemma_consecutive_batches(n, k_start, k_batch_size, plan, count - 1);
        let a = (count - 1) * k_batch_size;
        assert(a >= 0) by (nonlinear_arith)
            requires a == (count - 1) * k_batch_size, count >= 1, k_batch_size >= 0;
        assert(count * k_batch_size == a + k_batch_size) by (nonlinear_arith)
            requires a == (count - 1) * k_batch_size;
        assert(spec_batch_k0(k_start, k_batch_size, count - 1) == k_start + 6 * a) by (nonlinear_arith)
            requires a == (count - 1) * k_batch_size;
        lemma_surviving_ks_split(n, k_start, a, k_batch_size, plan);
    }
}

/// A value survives a joined plan exactly when it survives both parts.
pub proof fn lemma_survives_joined_plan(n: int, k: int, a: Seq<KPlan>, b: Seq<KPlan>)
    ensures
        spec_survives_plan(n, k, a + b) == (spec_survives_plan(n, k, a) && spec_survives_plan(n, k, b)),
{
    let ab = a + b;
    if spec_survives_plan(n, k, ab) {
        assert forall|i: int| 0 <= i < a.len() implies !#[trigger] entry_blocks(n, k, a[i]) by {
            assert(ab[i] == a[i]);
        }
        assert forall|i: int| 0 <= i < b.len() implies !#[trigger] entry_blocks(n, k, b[i]) by {
            assert(ab[a.len() + i] == b[i]);
        }
    }
    if spec_survives_plan(n, k, a) && spec_survives_plan(n, k, b) {
        assert forall|i: int| 0 <= i < ab.len() implies !#[trigger] entry_blocks(n, k, ab[i]) by {
            if i < a.len() {
                assert(ab[i] == a[i]);
            } else {
                assert(ab[i] == b[i - a.len()]);
            }
        }
    }
}

/// Filtering with plan `a` and then with plan `b` is filtering once with the
/// joined plan `a + b`: post-sieve filters compose.
pub proof fn lemma_filters_compose(n: int, s: Seq<u64>, a: Seq<KPlan>, b: Seq<KPlan>)
    ensures
        survivors_of(n, survivors_of(n, s, a), b) == survivors_of(n, s, a + b),
    decreases s.len(),
{
    if s.len() > 0 {
        lemma_filters_compose(n, s.drop_last(), a, b);
        lemma_survives_joined_plan(n, s.last() as int, a, b);
        let inner = survivors_of(n, s, a);
        if spec_survives_plan(n, s.last() as int, a) {
            let rest = survivors_of(n, s.drop_last(), a);
            assert(inner.drop_last() =~= rest);
            assert(inner.last() == s.last());
        }
    }
}

} // verus!

//! The fixed-`n` sieve over `k` for twin pairs `k*2^n - 1, k*2^n + 1`
//! with `k == 3 (mod 6)`.
use vstd::arithmetic::div_mod::*;
use vstd::arithmetic::mul::*;
use vstd::arithmetic::power::*;
use vstd::arithmetic::power2::*;
use vstd::bits::*;
use vstd::prelude::*;

use crate::arith::{mod_inv_prime, pow_mod_u64};
use crate::primes::{lemma_primes_below_props, prime_sieve, primes_below};
use crate::sieve_laws::{
    entry_well_formed, lemma_built_plan_well_formed, lemma_sieve_bit_is_survival, lemma_sieved_ks_survive, surviving_ks,
};

verus! {

/// One prime of the `k`-sieve: `p`, the inverse of 6 modulo `p`, and the two
/// residues of `k` modulo `p` that make `k*2^n - 1` or `k*2^n + 1` divisible by `p`.
#[derive(Clone, Copy, Debug)]
pub struct KPlan {
    pub p: u32,
    pub inv6: u32,
    pub bad1: u32,
    pub bad2: u32,
}

/// The first `k` at or above `k_start` (and at least 3) with `k % 6 == 3`.
pub open spec fn spec_align_k_start(k_start: int) -> int {
    if k_start <= 3 {
        3
    } else {
        k_start + ((9 - k_start % 6) % 6)
    }
}

/// The aligned start is the least admissible `k`: at least `k_start`, at
/// least 3, `3 (mod 6)`, and no such `k` lies below it.
pub proof fn lemma_align_is_least(k_start: int, k: int)
    requires
        k_start >= 0,
        k >= k_start,
        k >= 3,
        k % 6 == 3,
    ensures
        spec_align_k_start(k_start) <= k,
        spec_align_k_start(k_start) >= k_start,
        spec_align_k_start(k_start) >= 3,
        spec_align_k_start(k_start) % 6 == 3,
{
    let r = spec_align_k_start(k_start);
    if k_start > 3 {
        let d = (9 - k_start % 6) % 6;
        assert(0 <= d < 6);
        assert(r == k_start + d);
        assert((k_start + d) % 6 == 3) by {
            lemma_fundamental_div_mod(k_start, 6);
            lemma_mod_bound(k_start, 6);
        }
        if k < r {
            // k and r are both 3 (mod 6) and 0 <= r - k < 6, so k == r
            assert((r - k) % 6 == 0) by {
                lemma_fundamental_div_mod(k, 6);
                lemma_fundamental_div_mod(r, 6);
                assert(r - k == 6 * (r / 6 - k / 6)) by (nonlinear_arith)
                    requires k == 6 * (k / 6) + 3, r == 6 * (r / 6) + 3;
                lemma_mod_multiples_basic(r / 6 - k / 6, 6);
                lemma_mul_is_commutative(6, r / 6 - k / 6);
            }
            lemma_small_mod((r - k) as nat, 6);
        }
    }
}

/// Rounds `k_start` up to the next `k == 3 (mod 6)`, and to at least 3.
pub fn align_k_start(k_start: u64) -> (r: u64)
    ensures
        r == spec_align_k_start(k_start as int),
        r % 6 == 3,
        r >= 3,
        r >= k_start,
        r < k_start + 6 || k_start < 3,
        r < k_start + 6 || r == 3,
{
    if k_start <= 3 {
        return 3;
    }
    let rem = k_start % 6;
    if rem == 3 {
        k_start
    } else {
        k_start + ((3 + 6 - rem) % 6)
    }
}

/// `k_start + 6 * k_batch_size * batch_index`.
pub open spec fn spec_batch_k0(k_start: int, k_batch_size: int, batch_index: int) -> int {
    k_start + 6 * k_batch_size * batch_index
}

/// The first `k` of batch `batch_index`, or `None` when it does not fit in a `u64`.
pub fn batch_k0(k_start: u64, k_batch_size: usize, batch_index: u64) -> (r: Option<u64>)
    requires
        spec_batch_k0(k_start as int, k_batch_size as int, batch_index as int) <= u128::MAX,
    ensures
        spec_batch_k0(k_start as int, k_batch_size as int, batch_index as int) <= u64::MAX ==> r
            == Some(spec_batch_k0(k_start as int, k_batch_size as int, batch_index as int) as u64),
        spec_batch_k0(k_start as int, k_batch_size as int, batch_index as int) > u64::MAX ==> r
            is None,
{
    proof {
        assert(6 * (k_batch_size as int) * (batch_index as int) >= 0) by (nonlinear_arith)
            requires k_batch_size >= 0, batch_index >= 0;
        assert(6 * (k_batch_size as int) <= 6 * (k_batch_size as int) * (batch_index as int)
            || batch_index == 0) by (nonlinear_arith)
            requires k_batch_size >= 0, batch_index >= 0;
    }
    let batch_k0_u128 = k_start as u128 + 6u128 * k_batch_size as u128 * batch_index as u128;
    if batch_k0_u128 > u64::MAX as u128 {
        None
    } else {
        Some(batch_k0_u128 as u64)
    }
}

/// Bit `idx` of a packed bitset of 64-bit words.
pub open spec fn bitset_bit(alive: Seq<u64>, idx: int) -> bool {
    (alive[idx / 64] >> ((idx % 64) as u64)) & 1u64 == 1u64
}

proof fn lemma_word_index(idx: usize)
    ensures
        idx >> 6usize == idx / 64,
        idx & 63usize == idx % 64,
{
    assert(idx >> 6usize == idx / 64) by (bit_vector);
    assert(idx & 63usize == idx % 64) by (bit_vector);
}

/// Sets bit `idx` of the bitset.
pub fn set_bit(alive: &mut Vec<u64>, idx: usize)
    requires
        idx < 64 * old(alive)@.len(),
    ensures
        final(alive)@.len() == old(alive)@.len(),
        forall|m: int|
            0 <= m < 64 * old(alive)@.len() ==> #[trigger] bitset_bit(final(alive)@, m) == (m == idx
                || bitset_bit(old(alive)@, m)),
{
    proof {
        lemma_word_index(idx);
    }
    let w = alive[idx >> 6];
    alive.set(idx >> 6, w | (1u64 << ((idx & 63) as u64)));
    proof {
        assert forall|m: int| 0 <= m < 64 * old(alive)@.len() implies #[trigger] bitset_bit(
            alive@,
            m,
        ) == (m == idx || bitset_bit(old(alive)@, m)) by {
            crate::bits::lemma_word_set(w, (idx % 64) as u64, (m % 64) as u64);
            if m / 64 == idx / 64 && m % 64 == idx % 64 {
                lemma_fundamental_div_mod(m, 64);
                lemma_fundamental_div_mod(idx as int, 64);
            }
        }
    }
}

/// Clears bit `idx` of the bitset.
pub fn clear_bit(alive: &mut Vec<u64>, idx: usize)
    requires
        idx < 64 * old(alive)@.len(),
    ensures
        final(alive)@.len() == old(alive)@.len(),
        forall|m: int|
            0 <= m < 64 * old(alive)@.len() ==> #[trigger] bitset_bit(final(alive)@, m) == (m != idx
                && bitset_bit(old(alive)@, m)),
{
    proof {
        lemma_word_index(idx);
    }
    let w = alive[idx >> 6];
    alive.set(idx >> 6, w & !(1u64 << ((idx & 63) as u64)));
    proof {
        assert forall|m: int| 0 <= m < 64 * old(alive)@.len() implies #[trigger] bitset_bit(
            alive@,
            m,
        ) == (m != idx && bitset_bit(old(alive)@, m)) by {
            crate::bits::lemma_word_clear(w, (idx % 64) as u64, (m % 64) as u64);
            if m / 64 == idx / 64 && m % 64 == idx % 64 {
                lemma_fundamental_div_mod(m, 64);
                lemma_fundamental_div_mod(idx as int, 64);
            }
        }
    }
}

/// Whether bit `idx` of the bitset is set.
pub fn bit_is_set(alive: &[u64], idx: usize) -> (r: bool)
    requires
        idx < 64 * alive@.len(),
    ensures
        r == bitset_bit(alive@, idx as int),
{
    proof {
        lemma_word_index(idx);
        crate::bits::lemma_word_mask_test(alive@[(idx / 64) as int], (idx % 64) as u64);
    }
    alive[idx >> 6] & (1u64 << ((idx & 63) as u64)) != 0
}

/// `k*2^n` is `p - 1` or `p + 1` (for `n < 63` and `k > 0`): one of the pair is
/// the prime `p` itself, which must not be sieved out by `p`.
pub open spec fn spec_self_prime_exception(n: int, p: int, k: int) -> bool {
    &&& 0 <= n < 63
    &&& k > 0
    &&& (k * pow2(n as nat) == p - 1 || k * pow2(n as nat) == p + 1)
}

proof fn lemma_two_pow(n: u64)
    requires
        n < 63,
    ensures
        1u128 << n == pow2(n as nat),
        pow2(n as nat) <= 0x4000_0000_0000_0000u64,
{
    assert(n < 63 ==> 1u128 << n == (1u64 << n) as u128) by (bit_vector);
    lemma2_to64_rest();
    if n < 62 {
        lemma_pow2_strictly_increases(n as nat, 62);
    }
    lemma_u64_shl_is_mul(1, n);
}

/// Whether `k*2^n == p +/- 1`, so that one of the pair is `p` itself.
pub fn is_self_prime_exception(n: u64, p: u32, k: u64) -> (r: bool)
    requires
        p > 0,
    ensures
        r == spec_self_prime_exception(n as int, p as int, k as int),
{
    if n >= 63 {
        return false;
    }
    let two_n = 1u128 << n;
    proof {
        lemma_two_pow(n);
        lemma_pow2_pos(n as nat);
    }
    let pm = p as u128 - 1;
    let pp = p as u128 + 1;
    proof {
        lemma_exception_numer(pm as int, pow2(n as nat) as int, k as int);
        lemma_exception_numer(pp as int, pow2(n as nat) as int, k as int);
    }
    if pm != 0 && pm % two_n == 0 && pm / two_n == k as u128 {
        return true;
    }
    if pp != 0 && pp % two_n == 0 && pp / two_n == k as u128 {
        return true;
    }
    false
}

proof fn lemma_exception_numer(numer: int, t: int, k: int)
    requires
        numer >= 0,
        t > 0,
    ensures
        (numer != 0 && numer % t == 0 && numer / t == k) <==> (k > 0 && k * t == numer),
{
    lemma_fundamental_div_mod(numer, t);
    if k > 0 && k * t == numer {
        lemma_mul_strictly_positive(k, t);
        lemma_fundamental_div_mod_converse(numer, t, k, 0);
    }
    if numer != 0 && numer % t == 0 && numer / t == k {
        assert(numer == t * k);
        lemma_mul_is_commutative(t, k);
        if k <= 0 {
            assert(t * k <= 0) by (nonlinear_arith)
                requires t > 0, k <= 0;
        }
    }
}

/// The offset of the exception `k = numer / 2^n` in a batch starting at
/// `k_start`, as `self_prime_exception_indices` computes it for one of
/// `numer = p - 1` and `numer = p + 1`.
pub open spec fn exception_index(n: int, p: int, k_start: int, k_count: int, numer: int) -> Option<
    int,
> {
    if 0 <= n < 63 && pow2(n as nat) <= p + 1 && numer != 0 && numer % (pow2(n as nat) as int) == 0 {
        let k = numer / (pow2(n as nat) as int);
        if k != 0 && k % 6 == 3 && k >= k_start && (k - k_start) % 6 == 0 && (k - k_start) / 6
            < k_count {
            Some((k - k_start) / 6)
        } else {
            None
        }
    } else {
        None
    }
}

/// The index held by an option, as a list of zero or one entries.
pub open spec fn option_seq(o: Option<int>) -> Seq<usize> {
    match o {
        Some(i) => seq![i as usize],
        None => seq![],
    }
}

/// The offsets in a batch (`k = k_start + 6 * idx`, `idx < k_count`) whose
/// `k*2^n` is `p - 1` or `p + 1`: for those, `p` is one of the pair itself.
pub fn self_prime_exception_indices(n: u64, p: u32, k_start: u64, k_count: usize) -> (out: Vec<
    usize,
>)
    requires
        p > 0,
    ensures
        out@ == option_seq(exception_index(n as int, p as int, k_start as int, k_count as int, p - 1))
            + option_seq(exception_index(n as int, p as int, k_start as int, k_count as int, p + 1)),
{
    if n >= 63 {
        return Vec::new();
    }
    let two_n = 1u128 << n;
    proof {
        lemma_two_pow(n);
        lemma_pow2_pos(n as nat);
    }
    if two_n > p as u128 + 1 {
        return Vec::new();
    }
    let mut out = Vec::new();
    push_exception_index(&mut out, p as u128 - 1, two_n, n, p, k_start, k_count);
    push_exception_index(&mut out, p as u128 + 1, two_n, n, p, k_start, k_count);
    proof {
        assert(out@ == option_seq(exception_index(n as int, p as int, k_start as int, k_count as int, p - 1))
            + option_seq(exception_index(n as int, p as int, k_start as int, k_count as int, p + 1)));
    }
    out
}

fn push_exception_index(
    out: &mut Vec<usize>,
    numer: u128,
    two_n: u128,
    n: u64,
    p: u32,
    k_start: u64,
    k_count: usize,
)
    requires
        n < 63,
        two_n == pow2(n as nat),
        two_n <= p + 1,
        numer <= p + 1,
    ensures
        final(out)@ == old(out)@ + option_seq(
            exception_index(n as int, p as int, k_start as int, k_count as int, numer as int),
        ),
{
    proof {
        lemma_pow2_pos(n as nat);
    }
    if numer == 0 || numer % two_n != 0 {
        return;
    }
    let k = numer / two_n;
    if k == 0 || k % 6 != 3 {
        return;
    }
    proof {
        lemma_div_is_ordered_by_denominator(numer as int, 1, two_n as int);
    }
    let k_u64 = k as u64;
    if k_u64 < k_start {
        return;
    }
    let delta = k_u64 - k_start;
    if delta % 6 != 0 {
        return;
    }
    let idx = (delta / 6) as usize;
    if idx < k_count {
        out.push(idx);
    }
}

/// `exception_index` finds exactly the offsets whose `k` is a self-prime exception.
pub proof fn lemma_exception_index_iff(
    n: int,
    p: int,
    k_start: int,
    k_count: int,
    numer: int,
    idx: int,
)
    requires
        0 <= numer <= p + 1,
        k_start >= 0,
        idx >= 0,
    ensures
        exception_index(n, p, k_start, k_count, numer) == Some(idx) <==> (idx < k_count && 0 <= n
            < 63 && k_start + 6 * idx > 0 && (k_start + 6 * idx) % 6 == 3 && (k_start + 6 * idx)
            * pow2(n as nat) == numer),
{
    let k = k_start + 6 * idx;
    if 0 <= n < 63 {
        let t = pow2(n as nat) as int;
        lemma_pow2_pos(n as nat);
        lemma_exception_numer(numer, t, k);
        if exception_index(n, p, k_start, k_count, numer) == Some(idx) {
            let kk = numer / t;
            lemma_fundamental_div_mod(kk - k_start, 6);
            assert(kk == k);
            lemma_fundamental_div_mod(numer, t);
            assert(numer == t * kk);
            lemma_mul_is_commutative(t, kk);
        }
        if idx < k_count && k > 0 && k % 6 == 3 && k * t == numer {
            assert(numer / t == k);
            assert(t <= numer) by (nonlinear_arith)
                requires k * t == numer, k > 0, t > 0;
            lemma_mod_multiples_basic(idx, 6);
            lemma_mul_is_commutative(idx, 6);
            assert((k - k_start) % 6 == 0);
            lemma_div_multiples_vanish(idx, 6);
            assert((k - k_start) / 6 == idx);
        }
    }
}

/// `p` rules out `k` (it divides one of the pair without being it).
pub open spec fn entry_blocks(n: int, k: int, e: KPlan) -> bool {
    &&& (k % (e.p as int) == e.bad1 || k % (e.p as int) == e.bad2)
    &&& !spec_self_prime_exception(n, e.p as int, k)
}

/// No entry of the plan rules out `k`.
pub open spec fn spec_survives_plan(n: int, k: int, plan: Seq<KPlan>) -> bool {
    forall|i: int| 0 <= i < plan.len() ==> !#[trigger] entry_blocks(n, k, plan[i])
}

/// Every prime of the plan is positive.
pub open spec fn plan_primes_positive(plan: Seq<KPlan>) -> bool {
    forall|i: int| 0 <= i < plan.len() ==> #[trigger] plan[i].p > 0
}

/// Whether no entry of the plan rules out `k`.
pub fn candidate_survives_plan(n: u64, k: u64, plan: &[KPlan]) -> (r: bool)
    requires
        plan_primes_positive(plan@),
    ensures
        r == spec_survives_plan(n as int, k as int, plan@),
{
    let mut i: usize = 0;
    while i < plan.len()
        invariant
            i <= plan@.len(),
            plan_primes_positive(plan@),
            forall|j: int| 0 <= j < i ==> !#[trigger] entry_blocks(n as int, k as int, plan@[j]),
        decreases plan@.len() - i,
    {
        let entry = &plan[i];
        proof {
            assert(plan@[i as int].p > 0);
        }
        let k_mod_p = (k % entry.p as u64) as u32;
        if (k_mod_p == entry.bad1 || k_mod_p == entry.bad2) && !is_self_prime_exception(
            n,
            entry.p,
            k,
        ) {
            proof {
                assert(entry_blocks(n as int, k as int, plan@[i as int]));
            }
            return false;
        }
        i += 1;
    }
    true
}

/// `s` with the values that do not survive the plan dropped, order kept.
pub open spec fn survivors_of(n: int, s: Seq<u64>, plan: Seq<KPlan>) -> Seq<u64>
    decreases s.len(),
{
    if s.len() == 0 {
        seq![]
    } else if spec_survives_plan(n, s.last() as int, plan) {
        survivors_of(n, s.drop_last(), plan).push(s.last())
    } else {
        survivors_of(n, s.drop_last(), plan)
    }
}

/// The values of `survivors` that survive `plan`, in their order.
pub fn filter_survivors_with_plan(n: u64, survivors: &[u64], plan: &[KPlan]) -> (out: Vec<u64>)
    requires
        plan_primes_positive(plan@),
    ensures
        out@ == survivors_of(n as int, survivors@, plan@),
        plan@.len() == 0 ==> out@ == survivors@,
{
    if plan.is_empty() {
        proof {
            lemma_survivors_of_empty_plan(n as int, survivors@, plan@);
        }
        return vstd::slice::slice_to_vec(survivors);
    }
    let mut out: Vec<u64> = Vec::new();
    let mut i: usize = 0;
    while i < survivors.len()
        invariant
            i <= survivors@.len(),
            plan_primes_positive(plan@),
            out@ == survivors_of(n as int, survivors@.subrange(0, i as int), plan@),
        decreases survivors@.len() - i,
    {
        let k = survivors[i];
        proof {
            assert(survivors@.subrange(0, i + 1).drop_last() =~= survivors@.subrange(0, i as int));
        }
        if candidate_survives_plan(n, k, plan) {
            out.push(k);
        }
        i += 1;
    }
    proof {
        assert(survivors@.subrange(0, i as int) =~= survivors@);
    }
    out
}

proof fn lemma_survivors_of_empty_plan(n: int, s: Seq<u64>, plan: Seq<KPlan>)
    requires
        plan.len() == 0,
    ensures
        survivors_of(n, s, plan) == s,
    decreases s.len(),
{
    if s.len() > 0 {
        lemma_survivors_of_empty_plan(n, s.drop_last(), plan);
        assert(s.drop_last().push(s.last()) =~= s);
    }
}

/// The offset below `p` at which the sieve starts crossing out `residue`:
/// `(residue - k_start) * inv6 mod p`.
pub open spec fn start_offset(e: KPlan, k_start: int, residue: int) -> int {
    (((residue + e.p - k_start % (e.p as int)) % (e.p as int)) * e.inv6) % (e.p as int)
}

/// Entry `e` crosses out offset `idx` of a batch starting at `k_start`.
pub open spec fn entry_hits(e: KPlan, k_start: int, idx: int) -> bool {
    ||| idx % (e.p as int) == start_offset(e, k_start, e.bad1 as int)
    ||| idx % (e.p as int) == start_offset(e, k_start, e.bad2 as int)
}

/// Entry `e` leaves offset `idx` alone (its `k` makes `e.p` one of the pair).
pub open spec fn is_exception_offset(n: int, e: KPlan, k_start: int, k_count: int, idx: int) -> bool {
    ||| exception_index(n, e.p as int, k_start, k_count, e.p - 1) == Some(idx)
    ||| exception_index(n, e.p as int, k_start, k_count, e.p + 1) == Some(idx)
}

/// Bit `idx` of the batch bitset after the first `j` entries of the plan
/// have been applied in order: each entry crosses out the offsets it hits,
/// except those whose `k` makes its prime one of the pair.
pub open spec fn sieve_bit_after(
    n: int,
    k_start: int,
    k_count: int,
    plan: Seq<KPlan>,
    j: int,
    idx: int,
) -> bool
    decreases j,
{
    if j <= 0 {
        true
    } else {
        &&& sieve_bit_after(n, k_start, k_count, plan, j - 1, idx)
        &&& !(entry_hits(plan[j - 1], k_start, idx) && !is_exception_offset(
            n,
            plan[j - 1],
            k_start,
            k_count,
            idx,
        ))
    }
}

/// Bounds the sieve needs: positive primes, and room to step past `k_count`.
pub open spec fn plan_fits(plan: Seq<KPlan>, k_count: int) -> bool {
    forall|i: int| 0 <= i < plan.len() ==> #[trigger] plan[i].p > 0 && k_count + plan[i].p
        <= usize::MAX
}

proof fn lemma_next_in_class(m: int, idx: int, p: int, r: int)
    requires
        p > 0,
        idx % p == r,
        m % p == r,
        idx < m,
    ensures
        m >= idx + p,
{
    lemma_fundamental_div_mod(idx, p);
    lemma_fundamental_div_mod(m, p);
    let a = idx / p;
    let b = m / p;
    assert(a < b) by (nonlinear_arith)
        requires idx == p * a + r, m == p * b + r, idx < m, p > 0;
    assert(p * a + p <= p * b) by (nonlinear_arith)
        requires a < b, p > 0;
}

fn clear_residue(alive: &mut Vec<u64>, k_count: usize, p: u32, i0: u64)
    requires
        p > 0,
        i0 < p,
        k_count + p <= usize::MAX,
        k_count <= 64 * old(alive)@.len(),
    ensures
        final(alive)@.len() == old(alive)@.len(),
        forall|m: int|
            0 <= m < 64 * old(alive)@.len() ==> #[trigger] bitset_bit(final(alive)@, m) == (
            bitset_bit(old(alive)@, m) && !(m < k_count && m % (p as int) == i0)),
{
    let mut idx = i0 as usize;
    proof {
        lemma_small_mod(i0 as nat, p as nat);
        assert forall|m: int| 0 <= m < i0 implies #[trigger] (m % (p as int)) != i0 by {
            lemma_small_mod(m as nat, p as nat);
        }
    }
    while idx < k_count
        invariant
            p > 0,
            i0 < p,
            k_count + p <= usize::MAX,
            k_count <= 64 * old(alive)@.len(),
            alive@.len() == old(alive)@.len(),
            idx <= k_count + p,
            (idx as int) % (p as int) == i0,
            forall|m: int|
                0 <= m < 64 * old(alive)@.len() ==> #[trigger] bitset_bit(alive@, m) == (bitset_bit(
                    old(alive)@,
                    m,
                ) && !(m < idx && m < k_count && m % (p as int) == i0)),
        decreases k_count + p - idx,
    {
        let ghost before = alive@;
        clear_bit(alive, idx);
        proof {
            assert forall|m: int| 0 <= m < 64 * old(alive)@.len() implies #[trigger] bitset_bit(
                alive@,
                m,
            ) == (bitset_bit(old(alive)@, m) && !(m < idx + p && m < k_count && m % (p as int)
                == i0)) by {
                assert(bitset_bit(before, m) == (bitset_bit(old(alive)@, m) && !(m < idx && m
                    < k_count && m % (p as int) == i0)));
                if idx < m && m < idx + p && m % (p as int) == i0 {
                    lemma_next_in_class(m, idx as int, p as int, i0 as int);
                }
            }
            lemma_mod_add_multiples_vanish(idx as int, p as int);
        }
        idx += p as usize;
    }
}

/// Sieves the batch `k = k_start + 6 * idx`, `idx < k_count`, with `plan`:
/// bit `idx` of the result is set when no entry crosses it out (an entry
/// leaves alone the offsets whose `k` makes its prime one of the pair; see
/// `sieve_bit_after`); bits from `k_count` on are clear.
pub fn sieve_k_batch(n: u64, k_start: u64, k_count: usize, plan: &[KPlan]) -> (alive: Vec<u64>)
    requires
        k_count + 63 <= usize::MAX,
        plan_fits(plan@, k_count as int),
    ensures
        alive@.len() == (k_count + 63) / 64,
        forall|idx: int|
            0 <= idx < k_count ==> #[trigger] bitset_bit(alive@, idx) == sieve_bit_after(
                n as int,
                k_start as int,
                k_count as int,
                plan@,
                plan@.len() as int,
                idx,
            ),
        forall|idx: int| k_count <= idx < 64 * alive@.len() ==> !#[trigger] bitset_bit(alive@, idx),
        k_start % 6 == 3 && (forall|i: int| 0 <= i < plan@.len() ==> #[trigger] entry_well_formed(plan@[i]))
            ==> forall|idx: int|
            0 <= idx < k_count ==> #[trigger] bitset_bit(alive@, idx) == spec_survives_plan(
                n as int,
                k_start + 6 * idx,
                plan@,
            ),
{
    let words = (k_count + 63) / 64;
    let mut alive = vec![u64::MAX; words];
    proof {
        assert forall|idx: int| 0 <= idx < 64 * words implies #[trigger] bitset_bit(alive@, idx) by {
            lemma_fundamental_div_mod(idx, 64);
            crate::bits::lemma_word_low_mask(1, (idx % 64) as u64);
        }
    }
    proof {
        assert(k_count & 63usize == k_count % 64) by (bit_vector);
    }
    if k_count & 63 != 0 {
        proof {
            let c = (k_count & 63) as u64;
            assert(c < 64 ==> (1u64 << c) >= 1u64) by (bit_vector);
        }
        let valid = (1u64 << ((k_count & 63) as u64)) - 1;
        let last = alive.len() - 1;
        let ghost before = alive@;
        alive.set(last, valid);
        proof {
            assert(words == k_count / 64 + 1);
            assert forall|idx: int| 0 <= idx < 64 * words implies #[trigger] bitset_bit(alive@, idx)
                == (idx < k_count) by {
                lemma_fundamental_div_mod(idx, 64);
                lemma_fundamental_div_mod(k_count as int, 64);
                crate::bits::lemma_word_low_mask((k_count % 64) as u64, (idx % 64) as u64);
                if idx / 64 == last {
                } else {
                    assert(bitset_bit(before, idx));
                }
            }
        }
    } else {
        proof {
            lemma_fundamental_div_mod(k_count as int, 64);
            assert(64 * words == k_count);
        }
    }
    let mut j: usize = 0;
    while j < plan.len()
        invariant
            j <= plan@.len(),
            alive@.len() == words,
            words == (k_count + 63) / 64,
            k_count <= 64 * words,
            plan_fits(plan@, k_count as int),
            forall|idx: int|
                0 <= idx < k_count ==> #[trigger] bitset_bit(alive@, idx) == sieve_bit_after(
                    n as int,
                    k_start as int,
                    k_count as int,
                    plan@,
                    j as int,
                    idx,
                ),
            forall|idx: int| k_count <= idx < 64 * words ==> !#[trigger] bitset_bit(alive@, idx),
        decreases plan@.len() - j,
    {
        let entry = &plan[j];
        proof {
            assert(plan@[j as int].p > 0 && k_count + plan@[j as int].p <= usize::MAX);
        }
        let p_u64 = entry.p as u64;
        let k_mod_p = k_start % p_u64;
        let ghost before = alive@;
        proof {
            lemma_mod_bound(k_start as int, p_u64 as int);
            let r1: int = (entry.bad1 as int + p_u64 as int - k_mod_p as int) % (p_u64 as int);
            let r2: int = (entry.bad2 as int + p_u64 as int - k_mod_p as int) % (p_u64 as int);
            lemma_mod_bound(entry.bad1 as int + p_u64 as int - k_mod_p as int, p_u64 as int);
            lemma_mod_bound(entry.bad2 as int + p_u64 as int - k_mod_p as int, p_u64 as int);
            assert(r1 * (entry.inv6 as int) <= 0xffff_ffff * 0xffff_ffff) by (nonlinear_arith)
                requires 0 <= r1 < p_u64, p_u64 <= 0xffff_ffff, 0 <= entry.inv6 <= 0xffff_ffff;
            assert(r2 * (entry.inv6 as int) <= 0xffff_ffff * 0xffff_ffff) by (nonlinear_arith)
                requires 0 <= r2 < p_u64, p_u64 <= 0xffff_ffff, 0 <= entry.inv6 <= 0xffff_ffff;
        }
        let exceptions = self_prime_exception_indices(n, entry.p, k_start, k_count);
        proof {
            let a = option_seq(exception_index(n as int, entry.p as int, k_start as int, k_count as int, entry.p - 1));
            let b = option_seq(exception_index(n as int, entry.p as int, k_start as int, k_count as int, entry.p + 1));
            assert(exceptions@ == a + b);
            assert forall|i: int| 0 <= i < exceptions@.len() implies #[trigger] exceptions@[i] < k_count by {
                if i < a.len() {
                    assert(exceptions@[i] == a[i]);
                } else {
                    assert(exceptions@[i] == b[i - a.len()]);
                }
            }
        }
        // An exception offset keeps the state it had before this entry.
        let mut kept: Vec<bool> = Vec::new();
        let mut t: usize = 0;
        while t < exceptions.len()
            invariant
                t <= exceptions@.len(),
                kept@.len() == t,
                alive@ == before,
                before.len() == words,
                k_count <= 64 * words,
                forall|i: int| 0 <= i < exceptions@.len() ==> #[trigger] exceptions@[i] < k_count,
                forall|i: int| 0 <= i < t ==> #[trigger] kept@[i] == bitset_bit(before, exceptions@[i] as int),
            decreases exceptions@.len() - t,
        {
            let was = bit_is_set(alive.as_slice(), exceptions[t]);
            kept.push(was);
            t += 1;
        }
        let i1 = (((entry.bad1 as u64 + p_u64 - k_mod_p) % p_u64) * entry.inv6 as u64) % p_u64;
        clear_residue(&mut alive, k_count, entry.p, i1);
        let i2 = (((entry.bad2 as u64 + p_u64 - k_mod_p) % p_u64) * entry.inv6 as u64) % p_u64;
        clear_residue(&mut alive, k_count, entry.p, i2);
        let ghost crossed = alive@;
        t = 0;
        while t < exceptions.len()
            invariant
                t <= exceptions@.len(),
                kept@.len() == exceptions@.len(),
                alive@.len() == words,
                k_count <= 64 * words,
                forall|i: int| 0 <= i < exceptions@.len() ==> #[trigger] exceptions@[i] < k_count,
                forall|idx: int|
                    0 <= idx < 64 * words ==> #[trigger] bitset_bit(alive@, idx) == (bitset_bit(
                        crossed,
                        idx,
                    ) || exists|i: int| 0 <= i < t && exceptions@[i] == idx && kept@[i]),
            decreases exceptions@.len() - t,
        {
            let ghost mid = alive@;
            if kept[t] {
                set_bit(&mut alive, exceptions[t]);
            }
            proof {
                assert forall|idx: int| 0 <= idx < 64 * words implies #[trigger] bitset_bit(
                    alive@,
                    idx,
                ) == (bitset_bit(crossed, idx) || exists|i: int|
                    0 <= i < t + 1 && exceptions@[i] == idx && kept@[i]) by {
                    assert(bitset_bit(mid, idx) == (bitset_bit(crossed, idx) || exists|i: int|
                        0 <= i < t && exceptions@[i] == idx && kept@[i]));
                    if exceptions@[t as int] == idx && kept@[t as int] {
                        assert(exists|i: int| 0 <= i < t + 1 && exceptions@[i] == idx && kept@[i]);
                    }
                    if exists|i: int| 0 <= i < t + 1 && exceptions@[i] == idx && kept@[i] {
                        let i = choose|i: int| 0 <= i < t + 1 && exceptions@[i] == idx && kept@[i];
                        if i < t {
                        }
                    }
                }
            }
            t += 1;
        }
        proof {
            let e = plan@[j as int];
            assert forall|idx: int| 0 <= idx < k_count implies #[trigger] bitset_bit(alive@, idx)
                == sieve_bit_after(
                n as int,
                k_start as int,
                k_count as int,
                plan@,
                j + 1,
                idx,
            ) by {
                assert(bitset_bit(before, idx) == sieve_bit_after(
                    n as int,
                    k_start as int,
                    k_count as int,
                    plan@,
                    j as int,
                    idx,
                ));
                let a = option_seq(exception_index(n as int, e.p as int, k_start as int, k_count as int, e.p - 1));
                let b = option_seq(exception_index(n as int, e.p as int, k_start as int, k_count as int, e.p + 1));
                assert(exceptions@ == a + b);
                if is_exception_offset(n as int, e, k_start as int, k_count as int, idx) {
                    if exception_index(n as int, e.p as int, k_start as int, k_count as int, e.p - 1) == Some(idx) {
                        assert(exceptions@[0] == idx);
                        assert(kept@[0] == bitset_bit(before, idx));
                    } else {
                        assert(exceptions@[a.len() as int] == idx);
                        assert(kept@[a.len() as int] == bitset_bit(before, idx));
                    }
                }
                if exists|i: int| 0 <= i < exceptions@.len() && exceptions@[i] == idx && kept@[i] {
                    let i = choose|i: int| 0 <= i < exceptions@.len() && exceptions@[i] == idx && kept@[i];
                    assert(kept@[i] == bitset_bit(before, exceptions@[i] as int));
                    if i < a.len() {
                    } else {
                    }
                }
            }
            assert forall|idx: int| k_count <= idx < 64 * words implies !#[trigger] bitset_bit(alive@, idx) by {
                if exists|i: int| 0 <= i < exceptions@.len() && exceptions@[i] == idx && kept@[i] {
                    let i = choose|i: int| 0 <= i < exceptions@.len() && exceptions@[i] == idx && kept@[i];
                }
            }
        }
        j += 1;
    }
    proof {
        if k_start % 6 == 3 && (forall|i: int| 0 <= i < plan@.len() ==> #[trigger] entry_well_formed(plan@[i])) {
            assert forall|idx: int| 0 <= idx < k_count implies #[trigger] bitset_bit(alive@, idx)
                == spec_survives_plan(n as int, k_start + 6 * idx, plan@) by {
                lemma_sieve_bit_is_survival(n as int, k_start as int, k_count as int, plan@, idx);
            }
        }
    }
    alive
}

/// The offsets in `[0, m)` below `k_count` whose bit is set, ascending.
pub open spec fn offsets_below(alive: Seq<u64>, k_count: int, m: int) -> Seq<u64>
    decreases m,
{
    if m <= 0 {
        seq![]
    } else if bitset_bit(alive, m - 1) && m - 1 < k_count {
        offsets_below(alive, k_count, m - 1).push((m - 1) as u64)
    } else {
        offsets_below(alive, k_count, m - 1)
    }
}

proof fn lemma_offsets_gap(alive: Seq<u64>, k_count: int, a: int, b: int)
    requires
        a <= b,
        forall|m: int| a <= m < b ==> !(bitset_bit(alive, m) && m < k_count),
    ensures
        offsets_below(alive, k_count, a) == offsets_below(alive, k_count, b),
    decreases b - a,
{
    if a < b {
        lemma_offsets_gap(alive, k_count, a, b - 1);
    }
}

proof fn lemma_word_position(word_idx: int, i: int)
    requires
        word_idx >= 0,
        0 <= i < 64,
    ensures
        (64 * word_idx + i) / 64 == word_idx,
        (64 * word_idx + i) % 64 == i,
{
    lemma_fundamental_div_mod_converse(64 * word_idx + i, 64, word_idx, i);
}

/// The offsets below `k_count` whose bit is set in `alive`, ascending.
pub fn survivor_offsets(alive: &[u64], k_count: usize) -> (out: Vec<u64>)
    requires
        64 * alive@.len() <= u64::MAX,
    ensures
        out@ == offsets_below(alive@, k_count as int, 64 * alive@.len() as int),
{
    let mut out: Vec<u64> = Vec::new();
    let mut word_idx: usize = 0;
    while word_idx < alive.len()
        invariant
            word_idx <= alive@.len(),
            64 * alive@.len() <= u64::MAX,
            out@ == offsets_below(alive@, k_count as int, 64 * word_idx as int),
        decreases alive@.len() - word_idx,
    {
        let word = alive[word_idx];
        let base = (word_idx as u64) << 6;
        proof {
            assert((word_idx as u64) << 6u64 == (word_idx as u64) * 64) by {
                lemma2_to64();
                assert(word_idx * 64 <= u64::MAX);
                lemma_u64_shl_is_mul(word_idx as u64, 6);
            }
            assert forall|i: int| 0 <= i < 64 implies #[trigger] bitset_bit(alive@, base + i)
                == crate::bits::word_bit(word, i) by {
                lemma_word_position(word_idx as int, i);
            }
        }
        if word == 0 {
            proof {
                assert forall|m: int| 64 * word_idx <= m < 64 * word_idx + 64 implies !(bitset_bit(
                    alive@,
                    m,
                ) && m < k_count) by {
                    crate::bits::lemma_word_trailing(word, (m - base) as u64);
                    assert(bitset_bit(alive@, base + (m - base)) == crate::bits::word_bit(word, m - base));
                }
                lemma_offsets_gap(alive@, k_count as int, 64 * word_idx, 64 * word_idx + 64);
            }
        } else {
            let mut w = word;
            let ghost mut lo: int = 0;
            loop
                invariant_except_break
                    0 <= lo <= 64,
                    base == 64 * word_idx,
                    word_idx < alive@.len(),
                    64 * alive@.len() <= u64::MAX,
                    forall|i: int| 0 <= i < 64 ==> #[trigger] crate::bits::word_bit(w, i) == (
                        crate::bits::word_bit(word, i) && i >= lo),
                    forall|i: int| 0 <= i < 64 ==> #[trigger] bitset_bit(alive@, base + i)
                        == crate::bits::word_bit(word, i),
                    out@ == offsets_below(alive@, k_count as int, base + lo),
                ensures
                    out@ == offsets_below(alive@, k_count as int, base + 64),
                decreases 64 - lo,
            {
                if w == 0 {
                    proof {
                        assert forall|m: int| base + lo <= m < base + 64 implies !(bitset_bit(
                            alive@,
                            m,
                        ) && m < k_count) by {
                            crate::bits::lemma_word_trailing(w, (m - base) as u64);
                            assert(bitset_bit(alive@, base + (m - base)) == crate::bits::word_bit(word, m - base));
                            assert(!crate::bits::word_bit(w, m - base));
                        }
                        lemma_offsets_gap(alive@, k_count as int, base + lo, base + 64);
                    }
                    break;
                }
                let ghost old_w = w;
                proof {
                    crate::bits::lemma_word_trailing(w, 0);
                }
                let bit = w.trailing_zeros() as u64;
                let off = base + bit;
                proof {
                    assert forall|i: int| 0 <= i < 64 implies (i < bit ==> !#[trigger] crate::bits::word_bit(w, i))
                        && (i == bit ==> crate::bits::word_bit(w, i)) by {
                        crate::bits::lemma_word_trailing(w, i as u64);
                    }
                    assert(crate::bits::word_bit(w, bit as int));
                    assert(bit >= lo);
                    assert forall|m: int| base + lo <= m < base + bit implies !(bitset_bit(alive@, m)
                        && m < k_count) by {
                        assert(bitset_bit(alive@, base + (m - base)) == crate::bits::word_bit(word, m - base));
                        assert(!crate::bits::word_bit(w, m - base));
                    }
                    lemma_offsets_gap(alive@, k_count as int, base + lo, base + bit);
                }
                if off >= k_count as u64 {
                    proof {
                        assert forall|m: int| base + bit <= m < base + 64 implies !(bitset_bit(
                            alive@,
                            m,
                        ) && m < k_count) by {}
                        lemma_offsets_gap(alive@, k_count as int, base + bit, base + 64);
                    }
                    break;
                }
                proof {
                    assert(bitset_bit(alive@, base + bit) == crate::bits::word_bit(word, bit as int));
                }
                out.push(off);
                w &= w - 1;
                proof {
                    let old_lo = lo;
                    lo = bit + 1;
                    assert(w == old_w & ((old_w - 1) as u64));
                    assert forall|i: int| 0 <= i < 64 implies #[trigger] crate::bits::word_bit(w, i) == (
                        crate::bits::word_bit(word, i) && i >= lo) by {
                        crate::bits::lemma_word_clear_lowest(old_w, i as u64);
                        assert(crate::bits::word_bit(old_w, i) == (crate::bits::word_bit(word, i)
                            && i >= old_lo));
                    }
                }
            }
        }
        word_idx += 1;
    }
    out
}

/// The plan entry for the prime `p`: `inv6 = 6^(p-2) mod p`, and the two
/// residues `+/- (2^n mod p)^(p-2) mod p`, the smaller one first.
pub open spec fn spec_plan_entry(n: int, p: int) -> KPlan {
    let two_n_mod_p = pow(2, n as nat) % p;
    let inv_two_n = pow(two_n_mod_p, (p - 2) as nat) % p;
    let neg_inv = if inv_two_n == 0 {
        0
    } else {
        p - inv_two_n
    };
    KPlan {
        p: p as u32,
        inv6: (pow(6, (p - 2) as nat) % p) as u32,
        bad1: (if inv_two_n <= neg_inv {
            inv_two_n
        } else {
            neg_inv
        }) as u32,
        bad2: (if inv_two_n <= neg_inv {
            neg_inv
        } else {
            inv_two_n
        }) as u32,
    }
}

/// The plan entries of the primes in `primes` that are at least 5 and above
/// `low_exclusive`, in order.
pub open spec fn plan_from_primes(n: int, primes: Seq<u32>, low_exclusive: int) -> Seq<KPlan>
    decreases primes.len(),
{
    if primes.len() == 0 {
        seq![]
    } else if primes.last() >= 5 && primes.last() > low_exclusive {
        plan_from_primes(n, primes.drop_last(), low_exclusive).push(
            spec_plan_entry(n, primes.last() as int),
        )
    } else {
        plan_from_primes(n, primes.drop_last(), low_exclusive)
    }
}

fn plan_entry(n: u64, p: u32) -> (e: KPlan)
    requires
        p >= 5,
    ensures
        e == spec_plan_entry(n as int, p as int),
{
    let two_n_mod_p = pow_mod_u64(2, n, p);
    let inv_two_n = mod_inv_prime(two_n_mod_p, p);
    let neg_inv = if inv_two_n == 0 {
        0
    } else {
        p - inv_two_n
    };
    let (bad1, bad2) = if inv_two_n <= neg_inv {
        (inv_two_n, neg_inv)
    } else {
        (neg_inv, inv_two_n)
    };
    KPlan { p, inv6: mod_inv_prime(6, p), bad1, bad2 }
}

fn plan_over_primes(n: u64, primes: &Vec<u32>, low_exclusive: usize) -> (plan: Vec<KPlan>)
    ensures
        plan@ == plan_from_primes(n as int, primes@, low_exclusive as int),
{
    let mut plan: Vec<KPlan> = Vec::new();
    let mut i: usize = 0;
    while i < primes.len()
        invariant
            i <= primes@.len(),
            plan@ == plan_from_primes(n as int, primes@.subrange(0, i as int), low_exclusive as int),
        decreases primes@.len() - i,
    {
        let p = primes[i];
        proof {
            assert(primes@.subrange(0, i + 1).drop_last() =~= primes@.subrange(0, i as int));
        }
        if p >= 5 && (p as usize) > low_exclusive {
            plan.push(plan_entry(n, p));
        }
        i += 1;
    }
    proof {
        assert(primes@.subrange(0, i as int) =~= primes@);
    }
    plan
}

/// The sieve plan for the primes from 5 up to `sieve_limit`.
pub fn build_k_sieve_plan(n: u64, sieve_limit: usize) -> (plan: Vec<KPlan>)
    requires
        sieve_limit <= u32::MAX,
        sieve_limit + 0x10000 <= usize::MAX,
    ensures
        plan@ == plan_from_primes(n as int, primes_below(sieve_limit + 1), 0),
        forall|i: int| 0 <= i < plan@.len() ==> #[trigger] entry_well_formed(plan@[i]),
{
    let primes = prime_sieve(sieve_limit);
    proof {
        lemma_built_plan_well_formed(n as int, sieve_limit as int, 0);
    }
    plan_over_primes(n, &primes, 0)
}

/// The plan `build_k_sieve_plan_range` makes: empty when the range is,
/// otherwise the entries of the primes in `(low_exclusive, high_inclusive]`.
pub open spec fn range_plan(n: int, low_exclusive: int, high_inclusive: int) -> Seq<KPlan> {
    if high_inclusive <= low_exclusive {
        seq![]
    } else {
        plan_from_primes(n, primes_below(high_inclusive + 1), low_exclusive)
    }
}

/// The sieve plan for the primes in `(low_exclusive, high_inclusive]` (and at least 5).
pub fn build_k_sieve_plan_range(n: u64, low_exclusive: usize, high_inclusive: usize) -> (plan: Vec<
    KPlan,
>)
    requires
        high_inclusive <= u32::MAX,
        high_inclusive + 0x10000 <= usize::MAX,
    ensures
        plan@ == range_plan(n as int, low_exclusive as int, high_inclusive as int),
        high_inclusive <= low_exclusive ==> plan@.len() == 0,
        forall|i: int| 0 <= i < plan@.len() ==> #[trigger] entry_well_formed(plan@[i]),
        high_inclusive > low_exclusive ==> plan@ == plan_from_primes(
            n as int,
            primes_below(high_inclusive + 1),
            low_exclusive as int,
        ),
{
    if high_inclusive <= low_exclusive {
        return Vec::new();
    }
    let primes = prime_sieve(high_inclusive);
    proof {
        lemma_built_plan_well_formed(n as int, high_inclusive as int, low_exclusive as int);
    }
    plan_over_primes(n, &primes, low_exclusive)
}

proof fn lemma_plan_none_above(n: int, primes: Seq<u32>, low_exclusive: int)
    requires
        forall|i: int| 0 <= i < primes.len() ==> primes[i] <= low_exclusive,
    ensures
        plan_from_primes(n, primes, low_exclusive).len() == 0,
    decreases primes.len(),
{
    if primes.len() > 0 {
        lemma_plan_none_above(n, primes.drop_last(), low_exclusive);
    }
}

proof fn lemma_plan_split_below(n: int, low: int, h: int)
    requires
        0 <= low,
        low + 1 <= h <= u32::MAX + 1,
    ensures
        plan_from_primes(n, primes_below(low + 1), 0) + plan_from_primes(n, primes_below(h), low)
            == plan_from_primes(n, primes_below(h), 0),
    decreases h,
{
    let base = plan_from_primes(n, primes_below(low + 1), 0);
    if h == low + 1 {
        lemma_primes_below_props(low + 1);
        lemma_plan_none_above(n, primes_below(low + 1), low);
        assert(base + plan_from_primes(n, primes_below(h), low) =~= base);
    } else {
        lemma_plan_split_below(n, low, h - 1);
        let ps = primes_below(h);
        if crate::number_theory::is_prime(h - 1) {
            assert(ps.drop_last() =~= primes_below(h - 1));
            assert(ps.last() == (h - 1) as u32);
            if h - 1 >= 5 {
                let e = spec_plan_entry(n, h - 1);
                let upper = plan_from_primes(n, primes_below(h - 1), low);
                assert(base + upper.push(e) =~= (base + upper).push(e));
            }
        }
    }
}

/// The plan up to `low` followed by the range plan `(low, high]` is the plan
/// up to `high`, entry for entry: a post-sieve with the range plan completes
/// the base sieve.
pub proof fn lemma_plan_split(n: int, low: int, high: int)
    requires
        0 <= low <= high <= u32::MAX,
    ensures
        plan_from_primes(n, primes_below(low + 1), 0) + range_plan(n, low, high) == plan_from_primes(
            n,
            primes_below(high + 1),
            0,
        ),
{
    if high == low {
        assert(plan_from_primes(n, primes_below(low + 1), 0) + range_plan(n, low, high)
            =~= plan_from_primes(n, primes_below(low + 1), 0));
    } else {
        lemma_plan_split_below(n, low, high + 1);
    }
}

/// Every entry of a plan built from `primes` belongs to a prime of the list
/// above `low_exclusive` and at least 5, and the entries come in list order.
pub proof fn lemma_plan_from_primes_entries(n: int, primes: Seq<u32>, low_exclusive: int)
    ensures
        forall|i: int|
            0 <= i < plan_from_primes(n, primes, low_exclusive).len() ==> {
                let e = #[trigger] plan_from_primes(n, primes, low_exclusive)[i];
                &&& primes.contains(e.p)
                &&& e.p >= 5
                &&& e.p > low_exclusive
                &&& e == spec_plan_entry(n, e.p as int)
            },
        plan_from_primes(n, primes, low_exclusive).len() <= primes.len(),
    decreases primes.len(),
{
    if primes.len() > 0 {
        let rest = primes.drop_last();
        lemma_plan_from_primes_entries(n, rest, low_exclusive);
        assert forall|x: u32| rest.contains(x) implies primes.contains(x) by {
            let k = choose|k: int| 0 <= k < rest.len() && rest[k] == x;
            assert(primes[k] == x);
        }
        assert(primes[primes.len() - 1] == primes.last());
        let pl = plan_from_primes(n, primes, low_exclusive);
        assert forall|i: int| 0 <= i < pl.len() implies {
            let e = #[trigger] pl[i];
            &&& primes.contains(e.p)
            &&& e.p >= 5
            &&& e.p > low_exclusive
            &&& e == spec_plan_entry(n, e.p as int)
        } by {
            let prev = plan_from_primes(n, rest, low_exclusive);
            if i < prev.len() {
                assert(pl[i] == prev[i]);
            }
        }
    }
}

/// Every entry of a plan built up to `limit` has a prime `p` with `5 <= p <= limit`.
pub proof fn lemma_plan_primes_bounded(n: int, limit: int, low_exclusive: int)
    requires
        0 <= limit <= u32::MAX,
    ensures
        forall|i: int|
            0 <= i < plan_from_primes(n, primes_below(limit + 1), low_exclusive).len() ==> {
                let e = #[trigger] plan_from_primes(n, primes_below(limit + 1), low_exclusive)[i];
                &&& crate::number_theory::is_prime(e.p as int)
                &&& 5 <= e.p <= limit
                &&& e.p > low_exclusive
                &&& e == spec_plan_entry(n, e.p as int)
            },
{
    lemma_primes_below_props(limit + 1);
    lemma_plan_from_primes_entries(n, primes_below(limit + 1), low_exclusive);
    let pl = plan_from_primes(n, primes_below(limit + 1), low_exclusive);
    assert forall|i: int| 0 <= i < pl.len() implies {
        let e = #[trigger] pl[i];
        &&& crate::number_theory::is_prime(e.p as int)
        &&& 5 <= e.p <= limit
        &&& e.p > low_exclusive
        &&& e == spec_plan_entry(n, e.p as int)
    } by {
        let e = pl[i];
        let k = choose|k: int| 0 <= k < primes_below(limit + 1).len() && #[trigger] primes_below(limit + 1)[k] == e.p;
        assert(crate::number_theory::is_prime(primes_below(limit + 1)[k] as int));
    }
}

/// The offsets `idx < m` (and `< k_count`) that the plan leaves set, ascending.
pub open spec fn sieved_offsets(
    n: int,
    k_start: int,
    k_count: int,
    plan: Seq<KPlan>,
    m: int,
) -> Seq<u64>
    decreases m,
{
    if m <= 0 {
        seq![]
    } else if m - 1 < k_count && sieve_bit_after(n, k_start, k_count, plan, plan.len() as int, m - 1) {
        sieved_offsets(n, k_start, k_count, plan, m - 1).push((m - 1) as u64)
    } else {
        sieved_offsets(n, k_start, k_count, plan, m - 1)
    }
}

/// The set bits of a sieved bitset, listed, are the sieved offsets.
pub proof fn lemma_offsets_are_sieved(
    alive: Seq<u64>,
    n: int,
    k_start: int,
    k_count: int,
    plan: Seq<KPlan>,
    m: int,
)
    requires
        m <= 64 * alive.len(),
        forall|idx: int|
            0 <= idx < k_count ==> #[trigger] bitset_bit(alive, idx) == sieve_bit_after(
                n,
                k_start,
                k_count,
                plan,
                plan.len() as int,
                idx,
            ),
    ensures
        offsets_below(alive, k_count, m) == sieved_offsets(n, k_start, k_count, plan, m),
    decreases m,
{
    if m > 0 {
        lemma_offsets_are_sieved(alive, n, k_start, k_count, plan, m - 1);
        if m - 1 < k_count {
            assert(bitset_bit(alive, m - 1) == sieve_bit_after(n, k_start, k_count, plan, plan.len() as int, m - 1));
        }
    }
}

/// No offset at or beyond `k_count` is listed.
pub proof fn lemma_sieved_offsets_stop(n: int, k_start: int, k_count: int, plan: Seq<KPlan>, m: int)
    requires
        0 <= k_count <= m,
    ensures
        sieved_offsets(n, k_start, k_count, plan, m) == sieved_offsets(n, k_start, k_count, plan, k_count),
    decreases m,
{
    if m > k_count {
        lemma_sieved_offsets_stop(n, k_start, k_count, plan, m - 1);
    }
}

/// The `k` values `k0 + 6 * off` for the offsets `offs`.
pub open spec fn ks_of_offsets(k0: int, offs: Seq<u64>) -> Seq<u64> {
    offs.map_values(|off: u64| (k0 + 6 * off) as u64)
}

/// One batch of candidates `k = batch_k0 + 6 * idx` (`idx < k_batch_size`)
/// and the `k` values that survived the sieve.
#[derive(Clone, Debug)]
pub struct SurvivorBatch {
    pub n: u64,
    pub k_start: u64,
    pub k_batch_size: usize,
    pub sieve_limit: usize,
    pub batch_index: u64,
    pub batch_k0: u64,
    pub total_input_k: usize,
    pub survivors: Vec<u64>,
}

/// What `generate_survivor_batch_with_plan` needs of its inputs: room for the
/// bitset and the plan's steps, and every surviving `k` fits in a `u64`
/// whenever the batch start does.
pub open spec fn batch_inputs_fit(
    k_start: int,
    k_batch_size: int,
    batch_index: int,
    plan: Seq<KPlan>,
) -> bool {
    let k0 = spec_batch_k0(spec_align_k_start(k_start), k_batch_size, batch_index);
    &&& k_batch_size + 63 <= usize::MAX
    &&& plan_fits(plan, k_batch_size)
    &&& k0 <= u128::MAX
    &&& (k0 <= u64::MAX ==> k0 + 6 * k_batch_size <= u64::MAX + 6)
}

/// Sieves batch `batch_index` of `k_batch_size` candidates from the aligned
/// `k_start` with `plan`; `None` when the batch start does not fit in a `u64`.
pub fn generate_survivor_batch_with_plan(
    n: u64,
    k_start: u64,
    k_batch_size: usize,
    sieve_limit: usize,
    batch_index: u64,
    plan: &[KPlan],
) -> (r: Option<SurvivorBatch>)
    requires
        batch_inputs_fit(k_start as int, k_batch_size as int, batch_index as int, plan@),
    ensures
        ({
            let aligned = spec_align_k_start(k_start as int);
            let k0 = spec_batch_k0(aligned, k_batch_size as int, batch_index as int);
            match r {
                None => k0 > u64::MAX,
                Some(b) => {
                    &&& k0 <= u64::MAX
                    &&& b.n == n
                    &&& b.k_start == aligned
                    &&& b.k_batch_size == k_batch_size
                    &&& b.sieve_limit == sieve_limit
                    &&& b.batch_index == batch_index
                    &&& b.batch_k0 == k0
                    &&& b.total_input_k == k_batch_size
                    &&& b.survivors@ == ks_of_offsets(
                        k0,
                        sieved_offsets(n as int, k0, k_batch_size as int, plan@, k_batch_size as int),
                    )
                    &&& (forall|i: int| 0 <= i < plan@.len() ==> #[trigger] entry_well_formed(plan@[i]))
                        ==> b.survivors@ == surviving_ks(n as int, k0, k_batch_size as int, plan@)
                },
            }
        }),
{
    let k_start = align_k_start(k_start);
    let batch_k0 = match batch_k0(k_start, k_batch_size, batch_index) {
        Some(v) => v,
        None => {
            return None;
        },
    };
    let alive = sieve_k_batch(n, batch_k0, k_batch_size, plan);
    proof {
        assert(64 * alive@.len() <= k_batch_size + 63) by {
            lemma_fundamental_div_mod(k_batch_size + 63, 64);
        }
    }
    let offsets = survivor_offsets(&alive, k_batch_size);
    let ghost offs = sieved_offsets(n as int, batch_k0 as int, k_batch_size as int, plan@, k_batch_size as int);
    proof {
        lemma_fundamental_div_mod(k_batch_size + 63, 64);
        lemma_offsets_are_sieved(alive@, n as int, batch_k0 as int, k_batch_size as int, plan@, 64 * alive@.len() as int);
        lemma_sieved_offsets_stop(n as int, batch_k0 as int, k_batch_size as int, plan@, 64 * alive@.len() as int);
        lemma_sieved_offsets_bounded(n as int, batch_k0 as int, k_batch_size as int, plan@, k_batch_size as int);
    }
    let mut survivors: Vec<u64> = Vec::new();
    let mut i: usize = 0;
    while i < offsets.len()
        invariant
            i <= offsets@.len(),
            offsets@ == offs,
            forall|t: int| 0 <= t < offs.len() ==> #[trigger] offs[t] < k_batch_size,
            batch_k0 + 6 * k_batch_size <= u64::MAX + 6,
            survivors@ == ks_of_offsets(batch_k0 as int, offs.subrange(0, i as int)),
        decreases offsets@.len() - i,
    {
        let off = offsets[i];
        proof {
            assert(offs[i as int] < k_batch_size);
            assert(ks_of_offsets(batch_k0 as int, offs.subrange(0, i + 1)) =~= ks_of_offsets(
                batch_k0 as int,
                offs.subrange(0, i as int),
            ).push((batch_k0 + 6 * off) as u64));
        }
        survivors.push(batch_k0 + 6 * off);
        i += 1;
    }
    proof {
        assert(offs.subrange(0, i as int) =~= offs);
        if forall|i: int| 0 <= i < plan@.len() ==> #[trigger] entry_well_formed(plan@[i]) {
            assert(batch_k0 % 6 == 3) by {
                lemma_mod_multiples_vanish(k_batch_size * batch_index, k_start as int, 6);
                assert(6 * k_batch_size * batch_index == 6 * (k_batch_size * batch_index)) by (nonlinear_arith);
            }
            lemma_sieved_ks_survive(n as int, batch_k0 as int, k_batch_size as int, plan@, k_batch_size as int);
        }
    }
    Some(
        SurvivorBatch {
            n,
            k_start,
            k_batch_size,
            sieve_limit,
            batch_index,
            batch_k0,
            total_input_k: k_batch_size,
            survivors,
        },
    )
}

proof fn lemma_sieved_offsets_bounded(n: int, k_start: int, k_count: int, plan: Seq<KPlan>, m: int)
    requires
        k_count <= u64::MAX,
    ensures
        forall|t: int|
            0 <= t < sieved_offsets(n, k_start, k_count, plan, m).len() ==> #[trigger] sieved_offsets(
                n,
                k_start,
                k_count,
                plan,
                m,
            )[t] < k_count && sieved_offsets(n, k_start, k_count, plan, m)[t] < m,
    decreases m,
{
    if m > 0 {
        lemma_sieved_offsets_bounded(n, k_start, k_count, plan, m - 1);
        let prev = sieved_offsets(n, k_start, k_count, plan, m - 1);
        if m - 1 < k_count && sieve_bit_after(n, k_start, k_count, plan, plan.len() as int, m - 1) {
            assert(sieved_offsets(n, k_start, k_count, plan, m)[prev.len() as int] == (m - 1) as u64);
        }
    }
}

/// Builds the plan for `sieve_limit` and sieves batch `batch_index`.
pub fn generate_survivor_batch(
    n: u64,
    k_start: u64,
    k_batch_size: usize,
    sieve_limit: usize,
    batch_index: u64,
) -> (r: Option<SurvivorBatch>)
    requires
        sieve_limit <= u32::MAX,
        sieve_limit + 0x10000 <= usize::MAX,
        k_batch_size + 63 <= usize::MAX,
        k_batch_size + sieve_limit <= usize::MAX,
        spec_batch_k0(spec_align_k_start(k_start as int), k_batch_size as int, batch_index as int)
            <= u128::MAX,
        spec_batch_k0(spec_align_k_start(k_start as int), k_batch_size as int, batch_index as int)
            <= u64::MAX ==> spec_batch_k0(
            spec_align_k_start(k_start as int),
            k_batch_size as int,
            batch_index as int,
        ) + 6 * k_batch_size <= u64::MAX + 6,
    ensures
        ({
            let aligned = spec_align_k_start(k_start as int);
            let k0 = spec_batch_k0(aligned, k_batch_size as int, batch_index as int);
            let plan = plan_from_primes(n as int, primes_below(sieve_limit + 1), 0);
            match r {
                None => k0 > u64::MAX,
                Some(b) => {
                    &&& k0 <= u64::MAX
                    &&& b.n == n
                    &&& b.k_start == aligned
                    &&& b.k_batch_size == k_batch_size
                    &&& b.sieve_limit == sieve_limit
                    &&& b.batch_index == batch_index
                    &&& b.batch_k0 == k0
                    &&& b.total_input_k == k_batch_size
                    &&& b.survivors@ == ks_of_offsets(
                        k0,
                        sieved_offsets(n as int, k0, k_batch_size as int, plan, k_batch_size as int),
                    )
                },
            }
        }),
{
    let plan = build_k_sieve_plan(n, sieve_limit);
    proof {
        lemma_plan_primes_bounded(n as int, sieve_limit as int, 0);
        assert(plan_fits(plan@, k_batch_size as int));
    }
    generate_survivor_batch_with_plan(n, k_start, k_batch_size, sieve_limit, batch_index, plan.as_slice())
}

} // verus!

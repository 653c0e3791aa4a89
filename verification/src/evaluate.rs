//! Scoring a finder run against the truth: how many of its candidates are twin
//! prime pairs, and how many twin pairs the corridor holds up to the limit.
use vstd::prelude::*;

use crate::finder::{
    is_isqrt, is_largest_prime_leq, lemma_candidates_below_ns, lemma_exact_range_mask, lemma_marked_below_primes,
    mask_blocks, max_candidate_m, prime_list, primes_needed, sieve_bool, spec_candidate, survivor_mask, twin_at,
    candidates_below, Candidate, FinderMode, FinderResult,
};
use crate::number_theory::is_prime;
use crate::ranking::natural_candidates;

verus! {

/// The number of twin prime pairs `(6m - 1, 6m + 1)` with `1 <= m < upto`.
pub open spec fn twin_pair_count(upto: int) -> nat
    decreases upto,
{
    if upto <= 1 {
        0
    } else {
        twin_pair_count(upto - 1) + if twin_at(upto - 1) { 1nat } else { 0nat }
    }
}

/// The number of candidates whose pair `(n, pair_right)` is a pair of primes.
pub open spec fn true_twin_count(s: Seq<Candidate>) -> nat
    decreases s.len(),
{
    if s.len() == 0 {
        0
    } else {
        true_twin_count(s.drop_last()) + if is_prime(s.last().n as int) && is_prime(s.last().pair_right as int) {
            1nat
        } else {
            0nat
        }
    }
}

/// The twin counts of a finder run: candidates that are twin pairs, and all twin
/// pairs `(n, n + 2)` with `5 <= n <= limit_n - 2`.
#[derive(Clone, Copy, Debug)]
pub struct TwinCounts {
    pub true_twins: usize,
    pub total_twins: usize,
}

/// Counts the candidates that are twin prime pairs, and the twin prime pairs in
/// the corridor up to the run's limit.
pub fn count_twins(result: &FinderResult) -> (r: TwinCounts)
    requires
        result.limit_n + 2 < usize::MAX / 4,
        forall|i: int|
            0 <= i < result.candidates@.len() ==> (#[trigger] result.candidates@[i]).n <= result.limit_n + 2
                && result.candidates@[i].pair_right <= result.limit_n + 2,
    ensures
        r.true_twins == true_twin_count(result.candidates@),
        r.total_twins == twin_pair_count(
            (if result.limit_n <= 1 { 0 } else { (result.limit_n - 1) / 6 }) + 1,
        ),
{
    let limit_n = result.limit_n;
    let sieve = sieve_bool(limit_n + 2);
    let mut true_twins: usize = 0;
    let mut i: usize = 0;
    while i < result.candidates.len()
        invariant
            i <= result.candidates@.len(),
            sieve@.len() == limit_n + 3,
            forall|m: int| 0 <= m <= limit_n + 2 ==> #[trigger] sieve@[m] == is_prime(m),
            forall|t: int|
                0 <= t < result.candidates@.len() ==> (#[trigger] result.candidates@[t]).n <= limit_n + 2
                    && result.candidates@[t].pair_right <= limit_n + 2,
            true_twins == true_twin_count(result.candidates@.subrange(0, i as int)),
            true_twins <= i,
        decreases result.candidates@.len() - i,
    {
        let c = result.candidates[i];
        proof {
            let s = result.candidates@.subrange(0, i + 1);
            assert(s.drop_last() == result.candidates@.subrange(0, i as int));
            assert(s.last() == c);
        }
        if sieve[c.n] && sieve[c.pair_right] {
            true_twins += 1;
        }
        i += 1;
    }
    proof {
        assert(result.candidates@.subrange(0, result.candidates@.len() as int) == result.candidates@);
    }
    let max_m = max_candidate_m(limit_n);
    let mut total_twins: usize = 0;
    let mut m: usize = 1;
    proof {
        if limit_n > 1 {
            vstd::arithmetic::div_mod::lemma_fundamental_div_mod(limit_n - 1, 6);
        }
    }
    while m <= max_m
        invariant
            1 <= m <= max_m + 1,
            6 * max_m + 1 <= limit_n || max_m == 0,
            max_m < usize::MAX / 8,
            sieve@.len() == limit_n + 3,
            forall|t: int| 0 <= t <= limit_n + 2 ==> #[trigger] sieve@[t] == is_prime(t),
            total_twins == twin_pair_count(m as int),
            total_twins < m,
        decreases max_m + 1 - m,
    {
        let n = 6 * m - 1;
        if sieve[n] && sieve[n + 2] {
            total_twins += 1;
        }
        m += 1;
    }
    TwinCounts { true_twins, total_twins }
}

/// The candidate list built from a mask that keeps exactly the twin pairs has
/// one candidate per twin pair, and every candidate is a twin pair.
proof fn lemma_twin_mask_counts(
    alive: Seq<bool>,
    upto: int,
    mode: Option<FinderMode>,
    hard_cutoff: int,
    soft_to: Option<usize>,
    score_z: Option<usize>,
    primes: Seq<usize>,
)
    requires
        upto <= alive.len() + 1,
        6 * upto <= usize::MAX + 5,
        forall|m: int| 1 <= m < upto ==> #[trigger] alive[m - 1] == twin_at(m),
    ensures
        candidates_below(alive, upto, mode, hard_cutoff, soft_to, score_z, primes).len() == twin_pair_count(upto),
        true_twin_count(candidates_below(alive, upto, mode, hard_cutoff, soft_to, score_z, primes))
            == twin_pair_count(upto),
    decreases upto,
{
    if upto > 1 {
        lemma_twin_mask_counts(alive, upto - 1, mode, hard_cutoff, soft_to, score_z, primes);
        let prev = candidates_below(alive, upto - 1, mode, hard_cutoff, soft_to, score_z, primes);
        let cur = candidates_below(alive, upto, mode, hard_cutoff, soft_to, score_z, primes);
        assert(alive[upto - 2] == twin_at(upto - 1));
        if alive[upto - 2] {
            let c = spec_candidate(upto - 1, mode, hard_cutoff, soft_to, score_z, primes);
            assert(cur == prev.push(c));
            assert(cur.drop_last() == prev);
            assert(c.n == 6 * (upto - 1) - 1);
            assert(c.pair_right == 6 * (upto - 1) + 1);
        }
    }
}

/// In exact-range mode the finder is exact: with the cutoff at the largest prime up
/// to `isqrt(limit_n + 2)`, the candidates (before any cut) are one per twin
/// prime pair `(n, n + 2)` with `n + 2 <= limit_n`, and every one of them is such
/// a pair: 100% precision and 100% recall.
pub proof fn lemma_exact_range_is_exact(
    limit_n: int,
    s: int,
    hard_cutoff: int,
    mode: Option<FinderMode>,
    soft_to: Option<usize>,
)
    requires
        2 <= limit_n,
        limit_n + 2 <= usize::MAX,
        is_isqrt(s, limit_n + 2),
        is_largest_prime_leq(hard_cutoff, s),
        soft_to matches Some(v) ==> v < usize::MAX,
    ensures
        ({
            let max_m = (limit_n - 1) / 6;
            let base = natural_candidates(limit_n, mode, hard_cutoff, soft_to);
            &&& base.len() == twin_pair_count(max_m + 1)
            &&& true_twin_count(base) == twin_pair_count(max_m + 1)
        }),
{
    let max_m = (limit_n - 1) / 6;
    vstd::arithmetic::div_mod::lemma_fundamental_div_mod(limit_n - 1, 6);
    assert(0xffff_ffff <= usize::MAX);
    assert(s < usize::MAX) by (nonlinear_arith)
        requires s * s <= limit_n + 2, limit_n + 2 <= usize::MAX, s >= 0, usize::MAX >= 0xffff_ffff;
    let bound = primes_needed(hard_cutoff, soft_to, None);
    let table = Seq::new((bound + 1) as nat, |m: int| is_prime(m));
    let primes = prime_list(bound);
    lemma_marked_below_primes(table, bound + 1);
    let alive = survivor_mask(max_m, hard_cutoff, primes);
    assert forall|m: int| 1 <= m < max_m + 1 implies #[trigger] alive[m - 1] == twin_at(m) by {
        lemma_exact_range_mask(limit_n, s, hard_cutoff, primes, m);
        assert(alive[m - 1] == !exists|i: int| 0 <= i < primes.len() && #[trigger] mask_blocks(m, primes[i] as int, hard_cutoff)) by {
            if exists|i: int| 0 <= i < primes.len() && #[trigger] mask_blocks(m, primes[i] as int, hard_cutoff) {
                let i = choose|i: int| 0 <= i < primes.len() && #[trigger] mask_blocks(m, primes[i] as int, hard_cutoff);
                assert(mask_blocks((m - 1) + 1, primes[i] as int, hard_cutoff));
            }
            if exists|i: int| 0 <= i < primes.len() && #[trigger] mask_blocks((m - 1) + 1, primes[i] as int, hard_cutoff) {
                let i = choose|i: int| 0 <= i < primes.len() && #[trigger] mask_blocks((m - 1) + 1, primes[i] as int, hard_cutoff);
                assert(mask_blocks(m, primes[i] as int, hard_cutoff));
            }
        }
    }
    lemma_twin_mask_counts(alive, max_m + 1, mode, hard_cutoff, soft_to, None, primes);
}

} // verus!

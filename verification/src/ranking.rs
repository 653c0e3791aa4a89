//! Ordering the corridor candidates: the soft rerank (by first soft blocker,
//! highest first), the natural order, and the final cut to the top `k` with ranks.
use vstd::prelude::*;
use vstd::seq_lib::*;

use crate::text::spec_ranking_label;
use crate::finder::{
    build_candidates, candidates_below, is_isqrt, is_largest_prime_leq, lemma_candidates_ascending, lemma_scoring_keeps_run,
    max_candidate_m, prime_list, primes_needed,
    soft_active, survivor_mask, Candidate, FinderMode, FinderResult,
};

verus! {

/// The rank key under a soft limit: the candidate's rank value, or `soft_limit + 1`
/// when it has none.
pub open spec fn rank_key(c: Candidate, soft_limit: int) -> int {
    match c.rank_value {
        Some(v) => v as int,
        None => soft_limit + 1,
    }
}

/// `a` comes before `b` in the soft rerank: a larger key first, then the smaller `n`.
pub open spec fn soft_before(a: Candidate, b: Candidate, soft_limit: int) -> bool {
    ||| rank_key(a, soft_limit) > rank_key(b, soft_limit)
    ||| (rank_key(a, soft_limit) == rank_key(b, soft_limit) && a.n < b.n)
}

/// Every candidate comes strictly before the ones after it in the soft rerank.
pub open spec fn soft_sorted(s: Seq<Candidate>, soft_limit: int) -> bool {
    forall|i: int, j: int| 0 <= i < j < s.len() ==> soft_before(#[trigger] s[i], #[trigger] s[j], soft_limit)
}

/// The candidates are in strictly ascending order of `n`.
pub open spec fn ascending_n(s: Seq<Candidate>) -> bool {
    forall|i: int, j: int| 0 <= i < j < s.len() ==> #[trigger] s[i].n < #[trigger] s[j].n
}

/// The soft rerank of candidates with distinct `n`: the same candidates, ordered
/// by rank key (highest first), ties by ascending `n`.
pub fn soft_rerank(candidates: Vec<Candidate>, soft_limit: usize) -> (out: Vec<Candidate>)
    requires
        ascending_n(candidates@),
        soft_limit < usize::MAX,
    ensures
        out@.to_multiset() == candidates@.to_multiset(),
        soft_sorted(out@, soft_limit as int),
{
    let mut out: Vec<Candidate> = Vec::new();
    let mut i: usize = 0;
    proof {
        assert(out@ =~= candidates@.subrange(0, 0));
    }
    while i < candidates.len()
        invariant
            i <= candidates@.len(),
            soft_limit < usize::MAX,
            ascending_n(candidates@),
            out@.to_multiset() == candidates@.subrange(0, i as int).to_multiset(),
            soft_sorted(out@, soft_limit as int),
            forall|j: int| 0 <= j < out@.len() ==> exists|t: int| 0 <= t < i && #[trigger] out@[j] == candidates@[t],
        decreases candidates@.len() - i,
    {
        let c = candidates[i];
        let c_key = match c.rank_value {
            Some(v) => v,
            None => soft_limit + 1,
        };
        let mut pos: usize = 0;
        while pos < out.len()
            invariant
                pos <= out@.len(),
                c == candidates@[i as int],
                soft_limit < usize::MAX,
                c_key == rank_key(c, soft_limit as int),
                forall|j: int| 0 <= j < pos ==> !soft_before(c, #[trigger] out@[j], soft_limit as int),
            ensures
                pos <= out@.len(),
                forall|j: int| 0 <= j < pos ==> !soft_before(c, #[trigger] out@[j], soft_limit as int),
                pos < out@.len() ==> soft_before(c, out@[pos as int], soft_limit as int),
            decreases out@.len() - pos,
        {
            let o = out[pos];
            let o_key = match o.rank_value {
                Some(v) => v,
                None => soft_limit + 1,
            };
            if c_key > o_key || (c_key == o_key && c.n < o.n) {
                break;
            }
            pos += 1;
        }
        proof {
            // Everything already placed came earlier in the input, so has a smaller `n`.
            assert forall|j: int| 0 <= j < out@.len() implies #[trigger] out@[j].n < c.n by {
                let t = choose|t: int| 0 <= t < i && #[trigger] out@[j] == candidates@[t];
                assert(candidates@[t].n < candidates@[i as int].n);
            }
            assert(forall|j: int| 0 <= j < pos ==> soft_before(#[trigger] out@[j], c, soft_limit as int));
            if pos < out@.len() {
                assert(soft_before(c, out@[pos as int], soft_limit as int));
            }
        }
        let ghost old_out = out@;
        out.insert(pos, c);
        proof {
            assert(out@ == old_out.insert(pos as int, c));
            to_multiset_insert(old_out, pos as int, c);
            let pre = candidates@.subrange(0, i as int);
            assert(candidates@.subrange(0, i + 1) == pre.push(c));
            to_multiset_build(pre, c);
            assert forall|a: int, b: int| 0 <= a < b < out@.len() implies soft_before(
                #[trigger] out@[a],
                #[trigger] out@[b],
                soft_limit as int,
            ) by {
                if a < pos && b == pos {
                } else if a == pos && b > pos {
                    assert(out@[b] == old_out[b - 1]);
                    if b - 1 > pos {
                        assert(soft_before(old_out[pos as int], old_out[b - 1], soft_limit as int));
                    }
                } else if a < pos && b > pos {
                    assert(out@[b] == old_out[b - 1]);
                    assert(soft_before(old_out[a], old_out[b - 1], soft_limit as int));
                } else if a > pos {
                    assert(out@[a] == old_out[a - 1]);
                    assert(out@[b] == old_out[b - 1]);
                    assert(soft_before(old_out[a - 1], old_out[b - 1], soft_limit as int));
                } else {
                    assert(soft_before(old_out[a], old_out[b], soft_limit as int));
                }
            }
            assert forall|j: int| 0 <= j < out@.len() implies exists|t: int|
                0 <= t < i + 1 && #[trigger] out@[j] == candidates@[t] by {
                if j < pos {
                    assert(out@[j] == old_out[j]);
                    let t = choose|t: int| 0 <= t < i && #[trigger] old_out[j] == candidates@[t];
                    assert(out@[j] == candidates@[t]);
                } else if j == pos {
                    assert(out@[j] == candidates@[i as int]);
                } else {
                    assert(out@[j] == old_out[j - 1]);
                    let t = choose|t: int| 0 <= t < i && #[trigger] old_out[j - 1] == candidates@[t];
                    assert(out@[j] == candidates@[t]);
                }
            }
        }
        i += 1;
    }
    proof {
        assert(candidates@.subrange(0, candidates@.len() as int) == candidates@);
    }
    out
}

/// The candidate with its rank set.
pub open spec fn with_rank(c: Candidate, rank: int) -> Candidate {
    Candidate { rank: rank as usize, ..c }
}

/// The first `top_k` candidates (all of them without a limit), ranked from 1.
pub open spec fn ranked_prefix(s: Seq<Candidate>, top_k: Option<usize>) -> Seq<Candidate> {
    let len = match top_k {
        Some(k) => if (k as int) < s.len() { k as int } else { s.len() as int },
        None => s.len() as int,
    };
    Seq::new(len as nat, |i: int| with_rank(s[i], i + 1))
}

/// Keeps the first `top_k` candidates (all without a limit) and numbers them from 1.
pub fn finalize_ranking(candidates: Vec<Candidate>, top_k: Option<usize>) -> (out: Vec<Candidate>)
    ensures
        out@ == ranked_prefix(candidates@, top_k),
{
    let ghost input = candidates@;
    let mut candidates = candidates;
    if let Some(k) = top_k {
        candidates.truncate(k);
    }
    let ghost kept = candidates@;
    let mut out: Vec<Candidate> = Vec::new();
    let mut idx: usize = 0;
    while idx < candidates.len()
        invariant
            idx <= candidates@.len(),
            candidates@ == kept,
            out@.len() == idx,
            forall|j: int| 0 <= j < idx ==> #[trigger] out@[j] == with_rank(kept[j], j + 1),
        decreases candidates@.len() - idx,
    {
        let mut c = candidates[idx];
        c.rank = idx + 1;
        out.push(c);
        idx += 1;
    }
    proof {
        assert(out@ =~= ranked_prefix(input, top_k)) by {
            let r = ranked_prefix(input, top_k);
            assert(r.len() == kept.len());
            assert forall|j: int| 0 <= j < r.len() implies out@[j] == r[j] by {
                assert(kept[j] == input[j]);
            }
        }
    }
    out
}

/// The corridor candidates in mask order for a finder run without scoring.
pub open spec fn natural_candidates(
    limit_n: int,
    mode: Option<FinderMode>,
    hard_cutoff: int,
    soft_to: Option<usize>,
) -> Seq<Candidate> {
    let max_m = if limit_n <= 1 { 0 } else { (limit_n - 1) / 6 };
    let primes = prime_list(primes_needed(hard_cutoff, soft_to, None));
    candidates_below(survivor_mask(max_m, hard_cutoff, primes), max_m + 1, mode, hard_cutoff, soft_to, None, primes)
}

/// Scoring only reorders: the candidates a scored run collects before its
/// score order (`build_candidates` with score depth `z`, whose prime list
/// reaches further) are, index by index, those of the run without scoring,
/// with the same pairs, soft blockers and soft ranks; so both runs hold the
/// same pairs.
pub proof fn lemma_scored_run_keeps_natural_candidates(
    limit_n: int,
    mode: Option<FinderMode>,
    hard_cutoff: int,
    soft_to: Option<usize>,
    z: Option<usize>,
)
    requires
        0 <= hard_cutoff,
        primes_needed(hard_cutoff, soft_to, z) + 1 <= usize::MAX,
        primes_needed(hard_cutoff, soft_to, None) + 1 <= usize::MAX,
    ensures
        ({
            let max_m = if limit_n <= 1 { 0 } else { (limit_n - 1) / 6 };
            let pz = prime_list(primes_needed(hard_cutoff, soft_to, z));
            let scored = candidates_below(survivor_mask(max_m, hard_cutoff, pz), max_m + 1, mode, hard_cutoff, soft_to, z, pz);
            let natural = natural_candidates(limit_n, mode, hard_cutoff, soft_to);
            &&& scored.map_values(|c: Candidate| c.n) == natural.map_values(|c: Candidate| c.n)
            &&& scored.map_values(|c: Candidate| (c.pair_right, c.extra_blocker, c.rank_value)) == natural.map_values(
                |c: Candidate| (c.pair_right, c.extra_blocker, c.rank_value),
            )
        }),
{
    let max_m = if limit_n <= 1 { 0 } else { (limit_n - 1) / 6 };
    let pz = prime_list(primes_needed(hard_cutoff, soft_to, z));
    let scored = candidates_below(survivor_mask(max_m, hard_cutoff, pz), max_m + 1, mode, hard_cutoff, soft_to, z, pz);
    let natural = natural_candidates(limit_n, mode, hard_cutoff, soft_to);
    lemma_scoring_keeps_run(max_m, mode, hard_cutoff, soft_to, z, None);
    assert(scored.map_values(|c: Candidate| c.n) =~= natural.map_values(|c: Candidate| c.n));
    assert(scored.map_values(|c: Candidate| (c.pair_right, c.extra_blocker, c.rank_value)) =~= natural.map_values(
        |c: Candidate| (c.pair_right, c.extra_blocker, c.rank_value),
    ));
}

/// A finder run without scoring: the masked corridor candidates up to `limit_n`,
/// soft-reranked when a soft limit above the cutoff is given (natural order
/// otherwise), cut to the top `k` and ranked from 1.
pub fn find_twin_candidates(
    limit_n: usize,
    mode: FinderMode,
    soft_to: Option<usize>,
    top_k: Option<usize>,
    custom_cutoff: Option<usize>,
) -> (res: FinderResult)
    requires
        limit_n + 2 <= usize::MAX,
        custom_cutoff is None && mode == FinderMode::ExactRange ==> limit_n >= 2,
        custom_cutoff matches Some(c) ==> c < usize::MAX / 8,
        soft_to matches Some(v) ==> v < usize::MAX / 8,
    ensures
        custom_cutoff matches Some(c) ==> res.hard_cutoff == c && res.mode is None,
        custom_cutoff is None ==> res.mode == Some(mode),
        custom_cutoff is None && mode == FinderMode::Fast ==> res.hard_cutoff == 211,
        custom_cutoff is None && mode == FinderMode::HighPrecision ==> res.hard_cutoff == 503,
        res.limit_n == limit_n,
        res.soft_to == soft_to,
        res.score_z is None,
        res.candidate_count == res.candidates@.len(),
        res.ranking@ == spec_ranking_label(soft_to, res.hard_cutoff as int, None),
        custom_cutoff is None && mode == FinderMode::ExactRange ==> exists|s: int|
            #[trigger] is_isqrt(s, limit_n + 2) && is_largest_prime_leq(res.hard_cutoff as int, s),
        ({
            let base = natural_candidates(limit_n as int, res.mode, res.hard_cutoff as int, soft_to);
            &&& !soft_active(soft_to, res.hard_cutoff as int) ==> res.candidates@ == ranked_prefix(base, top_k)
            &&& soft_active(soft_to, res.hard_cutoff as int) ==> exists|o: Seq<Candidate>|
                #[trigger] ranked_prefix(o, top_k) == res.candidates@ && o.to_multiset() == base.to_multiset()
                    && soft_sorted(o, soft_to->0 as int)
        }),
{
    let (found, _primes) = build_candidates(limit_n, mode, soft_to, custom_cutoff, false, None);
    let hard_cutoff = found.hard_cutoff;
    let ghost base = found.candidates@;
    proof {
        let max_m = if limit_n <= 1 { 0 } else { (limit_n - 1) / 6 };
        assert(6 * max_m <= limit_n) by {
            if limit_n > 1 {
                vstd::arithmetic::div_mod::lemma_fundamental_div_mod(limit_n - 1, 6);
            }
        }
        let primes = prime_list(primes_needed(hard_cutoff as int, soft_to, None));
        lemma_candidates_ascending(
            survivor_mask(max_m, hard_cutoff as int, primes),
            max_m + 1,
            found.mode,
            hard_cutoff as int,
            soft_to,
            None,
            primes,
        );
        assert(base == natural_candidates(limit_n as int, found.mode, hard_cutoff as int, soft_to));
    }
    let ordered = match soft_to {
        Some(soft_limit) => {
            if soft_limit > hard_cutoff {
                soft_rerank(found.candidates, soft_limit)
            } else {
                found.candidates
            }
        },
        None => found.candidates,
    };
    let ghost o = ordered@;
    let candidates = finalize_ranking(ordered, top_k);
    proof {
        if soft_active(soft_to, hard_cutoff as int) {
            assert(ranked_prefix(o, top_k) == candidates@);
        }
    }
    let count = candidates.len();
    FinderResult {
        limit_n,
        mode: found.mode,
        hard_cutoff,
        soft_to,
        score_z: None,
        candidate_count: count,
        ranking: found.ranking,
        candidates,
    }
}

/// The soft rerank is determined: two orderings of the same candidates that are
/// both sorted by the soft order are the same sequence.
pub proof fn lemma_soft_order_unique(a: Seq<Candidate>, b: Seq<Candidate>, soft_limit: int)
    requires
        a.to_multiset() == b.to_multiset(),
        soft_sorted(a, soft_limit),
        soft_sorted(b, soft_limit),
    ensures
        a == b,
    decreases a.len(),
{
    broadcast use vstd::multiset::group_multiset_axioms;

    to_multiset_len(a);
    to_multiset_len(b);
    if a.len() == 0 {
        assert(a =~= b);
    } else {
        let x = a[0];
        let y = b[0];
        assert(a[0] == x);
        assert(a.contains(x));
        assert(b[0] == y);
        assert(b.contains(y));
        to_multiset_contains(a, x);
        to_multiset_contains(b, x);
        to_multiset_contains(a, y);
        to_multiset_contains(b, y);
        assert(b.contains(x));
        assert(a.contains(y));
        if x != y {
            assert(exists|i: int| 0 <= i < a.len() && #[trigger] a[i] == y);
            assert(exists|j: int| 0 <= j < b.len() && #[trigger] b[j] == x);
            let i = choose|i: int| 0 <= i < a.len() && #[trigger] a[i] == y;
            let j = choose|j: int| 0 <= j < b.len() && #[trigger] b[j] == x;
            assert(i != 0 && j != 0);
            assert(soft_before(a[0], a[i], soft_limit));
            assert(soft_before(b[0], b[j], soft_limit));
        }
        to_multiset_remove(a, 0);
        to_multiset_remove(b, 0);
        assert(a.remove(0) =~= a.drop_first());
        assert(b.remove(0) =~= b.drop_first());
        assert forall|i: int, j: int| 0 <= i < j < a.drop_first().len() implies soft_before(
            #[trigger] a.drop_first()[i],
            #[trigger] a.drop_first()[j],
            soft_limit,
        ) by {
            assert(a.drop_first()[i] == a[i + 1] && a.drop_first()[j] == a[j + 1]);
        }
        assert forall|i: int, j: int| 0 <= i < j < b.drop_first().len() implies soft_before(
            #[trigger] b.drop_first()[i],
            #[trigger] b.drop_first()[j],
            soft_limit,
        ) by {
            assert(b.drop_first()[i] == b[i + 1] && b.drop_first()[j] == b[j + 1]);
        }
        lemma_soft_order_unique(a.drop_first(), b.drop_first(), soft_limit);
        assert(a =~= b) by {
            assert forall|i: int| 0 <= i < a.len() implies a[i] == b[i] by {
                if i > 0 {
                    assert(a[i] == a.drop_first()[i - 1]);
                    assert(b[i] == b.drop_first()[i - 1]);
                }
            }
        }
    }
}

} // verus!

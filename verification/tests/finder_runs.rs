use twin_prime_engine::evaluate::count_twins;
use twin_prime_engine::finder::{
    build_candidates, build_survivor_mask, first_pair_blocker, integer_sqrt, largest_prime_leq, max_candidate_m,
    mod_inverse, prime_list_from_sieve, resolve_cutoff, resolve_score_z, sieve_bool, FinderMode,
};
use twin_prime_engine::ranking::find_twin_candidates;

fn is_prime(x: usize) -> bool {
    if x < 2 {
        return false;
    }
    let mut d = 2;
    while d * d <= x {
        if x % d == 0 {
            return false;
        }
        d += 1;
    }
    true
}

#[test]
fn sieve_bool_marks_primes() {
    let s = sieve_bool(100);
    for (i, &b) in s.iter().enumerate() {
        assert_eq!(b, is_prime(i), "at {}", i);
    }
    assert_eq!(prime_list_from_sieve(&s, 20), vec![2, 3, 5, 7, 11, 13, 17, 19]);
    assert_eq!(largest_prime_leq(&s, 100), Some(97));
    assert_eq!(largest_prime_leq(&s, 1), None);
    assert_eq!(sieve_bool(0), vec![false]);
}

#[test]
fn integer_sqrt_exact() {
    assert_eq!(integer_sqrt(0), 0);
    assert_eq!(integer_sqrt(1), 1);
    assert_eq!(integer_sqrt(15), 3);
    assert_eq!(integer_sqrt(16), 4);
    assert_eq!(integer_sqrt(1_000_002), 1000);
    assert_eq!(integer_sqrt(usize::MAX), (1usize << (usize::BITS / 2)) - 1);
}

#[test]
fn modular_inverse_values() {
    assert_eq!(mod_inverse(6, 5), 1);
    assert_eq!(mod_inverse(6, 7), 6);
    assert_eq!(mod_inverse(6, 11), 2);
    assert_eq!(mod_inverse(3, 10), 7);
    assert_eq!(mod_inverse(2, i64::MAX as usize), 1usize << 62);
    assert_eq!(mod_inverse(i64::MAX as usize - 1, i64::MAX as usize), i64::MAX as usize - 1);
}

#[test]
fn cutoffs_by_mode() {
    assert_eq!(resolve_cutoff(1_000_000, FinderMode::Fast, None), (211, Some(FinderMode::Fast)));
    assert_eq!(resolve_cutoff(1_000_000, FinderMode::HighPrecision, None), (503, Some(FinderMode::HighPrecision)));
    // isqrt(1_000_002) = 1000; the largest prime up to 1000 is 997
    assert_eq!(resolve_cutoff(1_000_000, FinderMode::ExactRange, None), (997, Some(FinderMode::ExactRange)));
    assert_eq!(resolve_cutoff(1_000_000, FinderMode::Fast, Some(97)), (97, None));
}

#[test]
fn score_depths() {
    assert_eq!(resolve_score_z(211, None, 1_000_000), 503);
    assert_eq!(resolve_score_z(503, None, 1_000_000), 997);
    assert_eq!(resolve_score_z(997, None, 1_000_000), 1000);
    assert_eq!(resolve_score_z(97, None, 1_000_000), 194);
    assert_eq!(resolve_score_z(97, Some(300), 1_000_000), 300);
}

#[test]
fn corridor_size() {
    assert_eq!(max_candidate_m(0), 0);
    assert_eq!(max_candidate_m(1), 0);
    assert_eq!(max_candidate_m(6), 0);
    assert_eq!(max_candidate_m(7), 1);
    assert_eq!(max_candidate_m(100), 16);
}

#[test]
fn mask_keeps_pairs_without_small_factors() {
    let primes: Vec<usize> = prime_list_from_sieve(&sieve_bool(211), 211);
    let alive = build_survivor_mask(2000, 211, &primes);
    for m in 1..=2000usize {
        let blocked = primes.iter().any(|&p| {
            p >= 5 && ((6 * m - 1) % p == 0 && 6 * m - 1 != p || (6 * m + 1) % p == 0 && 6 * m + 1 != p)
        });
        assert_eq!(alive[m - 1], !blocked, "m = {}", m);
    }
}

#[test]
fn first_blocker_in_range() {
    let primes: Vec<usize> = prime_list_from_sieve(&sieve_bool(100), 100);
    // 6*...: 119 = 7 * 17, 121 = 11^2
    assert_eq!(first_pair_blocker(119, &primes, 5, 100), Some(7));
    assert_eq!(first_pair_blocker(119, &primes, 7, 100), Some(11));
    assert_eq!(first_pair_blocker(119, &primes, 11, 100), Some(17));
    assert_eq!(first_pair_blocker(101, &primes, 5, 100), None);
    assert_eq!(first_pair_blocker(119, &primes, 5, 6), None);
}

#[test]
fn exact_range_finds_exactly_the_twins() {
    for limit in [100usize, 1000, 100_000] {
        let r = find_twin_candidates(limit, FinderMode::ExactRange, None, None, None);
        let counts = count_twins(&r);
        assert_eq!(counts.true_twins, r.candidate_count);
        assert_eq!(counts.total_twins, r.candidate_count);
        for c in &r.candidates {
            assert!(is_prime(c.n) && is_prime(c.pair_right));
        }
    }
}

#[test]
fn high_precision_and_fast_at_100k() {
    let fast = find_twin_candidates(100_000, FinderMode::Fast, None, None, None);
    let hp = find_twin_candidates(100_000, FinderMode::HighPrecision, None, None, None);
    let cf = count_twins(&fast);
    let ch = count_twins(&hp);
    // every twin pair of the corridor is kept (100% recall)
    assert_eq!(cf.true_twins, cf.total_twins);
    assert_eq!(ch.true_twins, ch.total_twins);
    let precision_fast = cf.true_twins as f64 / fast.candidate_count as f64;
    assert!((precision_fast - 0.929331).abs() < 1e-5, "fast precision {}", precision_fast);
    assert_eq!(ch.true_twins, hp.candidate_count);
}

#[test]
fn precision_at_500k_and_1m() {
    let expect = [
        (500_000usize, FinderMode::Fast, 0.680077),
        (500_000, FinderMode::HighPrecision, 0.955012),
        (1_000_000, FinderMode::Fast, 0.591413),
        (1_000_000, FinderMode::HighPrecision, 0.855288),
    ];
    for (limit, mode, precision) in expect {
        let r = find_twin_candidates(limit, mode, None, None, None);
        let c = count_twins(&r);
        assert_eq!(c.true_twins, c.total_twins);
        let got = c.true_twins as f64 / r.candidate_count as f64;
        assert!((got - precision).abs() < 1e-5, "limit {} got {}", limit, got);
    }
}

#[test]
fn natural_order_top_4000_at_1m() {
    let r = find_twin_candidates(1_000_000, FinderMode::HighPrecision, None, Some(4000), None);
    let c = count_twins(&r);
    assert_eq!(r.candidate_count, 4000);
    assert_eq!(c.true_twins, 3895);
    assert!(r.candidates.windows(2).all(|w| w[0].n < w[1].n));
    assert!(r.candidates.iter().enumerate().all(|(i, c)| c.rank == i + 1));
    assert_eq!(r.ranking, "natural_order");
}

#[test]
fn soft_rerank_orders_by_blocker() {
    let r = find_twin_candidates(100_000, FinderMode::Fast, Some(1000), Some(50), None);
    assert_eq!(r.ranking, "soft_rerank(soft_to=1000)");
    for w in r.candidates.windows(2) {
        let a = w[0].rank_value.unwrap();
        let b = w[1].rank_value.unwrap();
        assert!(a > b || (a == b && w[0].n < w[1].n));
    }
    // no soft blocker up to 1000 gives the top key 1001
    assert_eq!(r.candidates[0].rank_value, Some(1001));
    assert_eq!(r.candidates[0].extra_blocker, None);
    assert_eq!(r.candidates.len(), 50);
}

#[test]
fn scored_run_keeps_the_same_candidates() {
    let (plain, _) = build_candidates(100_000, FinderMode::HighPrecision, None, None, false, None);
    let (scored, primes) = build_candidates(100_000, FinderMode::HighPrecision, None, None, true, None);
    assert_eq!(scored.score_z, Some(997));
    assert_eq!(scored.ranking, "sieve_score(score_z=997)");
    assert_eq!(plain.candidates.len(), scored.candidates.len());
    assert!(plain.candidates.iter().zip(scored.candidates.iter()).all(|(a, b)| a.n == b.n));
    assert_eq!(primes.last(), Some(&997));
}

#[test]
fn custom_cutoff_mode_is_custom() {
    let r = find_twin_candidates(10_000, FinderMode::Fast, None, None, Some(13));
    assert_eq!(r.mode, None);
    assert_eq!(r.hard_cutoff, 13);
    assert!(r.candidates.iter().all(|c| c.mode.is_none() && c.hard_cutoff == 13));
}

#[test]
fn scored_run_keeps_soft_blockers() {
    let soft = Some(2000);
    let (plain, _) = build_candidates(200_000, FinderMode::Fast, soft, None, false, None);
    let (scored, _) = build_candidates(200_000, FinderMode::Fast, soft, None, true, Some(5000));
    assert_eq!(scored.score_z, Some(5000));
    assert_eq!(plain.candidates.len(), scored.candidates.len());
    for (a, b) in plain.candidates.iter().zip(scored.candidates.iter()) {
        assert_eq!((a.n, a.pair_right, a.extra_blocker, a.rank_value), (b.n, b.pair_right, b.extra_blocker, b.rank_value));
    }
    assert!(plain.candidates.iter().any(|c| c.extra_blocker.is_some()));
}

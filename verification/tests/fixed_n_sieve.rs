use twin_prime_engine::fixed_n::{
    align_k_start, batch_k0, bit_is_set, build_k_sieve_plan, build_k_sieve_plan_range, candidate_survives_plan,
    clear_bit, filter_survivors_with_plan, generate_survivor_batch, generate_survivor_batch_with_plan,
    is_self_prime_exception, self_prime_exception_indices, set_bit, sieve_k_batch, survivor_offsets,
};
use twin_prime_engine::primes::prime_sieve;
use twin_prime_engine::validate::validate_k_sieve;

fn trial_survives(k: u64, n: u64, limit: usize) -> bool {
    let x = (k as u128) << n;
    let (p, q) = (x - 1, x + 1);
    for pr in prime_sieve(limit) {
        if pr < 5 {
            continue;
        }
        let pr = pr as u128;
        if (p % pr == 0 && p != pr) || (q % pr == 0 && q != pr) {
            return false;
        }
    }
    true
}

#[test]
fn align_k_start_moves_to_three_mod_six() {
    assert_eq!(align_k_start(0), 3);
    assert_eq!(align_k_start(3), 3);
    assert_eq!(align_k_start(4), 9);
    assert_eq!(align_k_start(8), 9);
    assert_eq!(align_k_start(9), 9);
    assert_eq!(align_k_start(10), 15);
    assert_eq!(align_k_start(1_000_001), 1_000_005);
    for k in 4..2000u64 {
        let a = align_k_start(k);
        assert_eq!(a % 6, 3);
        assert!(a >= k && a < k + 6);
    }
}

#[test]
fn batch_k0_values_and_overflow() {
    assert_eq!(batch_k0(3, 4096, 0), Some(3));
    assert_eq!(batch_k0(3, 4096, 2), Some(3 + 6 * 4096 * 2));
    assert_eq!(batch_k0(u64::MAX - 5, 1, 1), None);
    assert_eq!(batch_k0(u64::MAX - 6, 1, 1), Some(u64::MAX));
}

#[test]
fn bit_operations() {
    let mut bits = vec![0u64; 2];
    set_bit(&mut bits, 0);
    set_bit(&mut bits, 70);
    assert!(bit_is_set(&bits, 0));
    assert!(bit_is_set(&bits, 70));
    assert!(!bit_is_set(&bits, 1));
    clear_bit(&mut bits, 70);
    assert!(!bit_is_set(&bits, 70));
    assert_eq!(bits, vec![1, 0]);
}

#[test]
fn self_prime_exception_examples() {
    // 3*2^1 - 1 = 5 and 3*2^1 + 1 = 7: k = 3 is the pair member itself for p = 5, 7.
    assert!(is_self_prime_exception(1, 5, 3));
    assert!(is_self_prime_exception(1, 7, 3));
    assert!(!is_self_prime_exception(1, 11, 3));
    assert!(!is_self_prime_exception(63, 5, 3));
    assert_eq!(self_prime_exception_indices(1, 5, 3, 10), vec![0]);
    assert_eq!(self_prime_exception_indices(1, 7, 3, 10), vec![0]);
    // 9*2^1 - 1 = 17, 9*2^1 + 1 = 19 -> offset 1 from k_start 3
    assert_eq!(self_prime_exception_indices(1, 17, 3, 10), vec![1]);
    assert_eq!(self_prime_exception_indices(1, 17, 3, 1), Vec::<usize>::new());
    assert_eq!(self_prime_exception_indices(1, 17, 9, 10), vec![0]);
    assert_eq!(self_prime_exception_indices(40, 17, 3, 10), Vec::<usize>::new());
}

#[test]
fn plan_entries_mark_the_pair_residues() {
    let plan = build_k_sieve_plan(20, 200);
    assert_eq!(plan.len(), prime_sieve(200).len() - 2);
    for e in &plan {
        assert!(e.bad1 <= e.bad2);
        assert_eq!((6 * e.inv6 as u64) % e.p as u64, 1);
        let two_n = (1u128 << 20) % e.p as u128;
        for bad in [e.bad1, e.bad2] {
            let r = (bad as u128 * two_n) % e.p as u128;
            assert!(r == 1 || r == e.p as u128 - 1);
        }
    }
    let range = build_k_sieve_plan_range(20, 100, 200);
    assert!(range.iter().all(|e| e.p > 100 && e.p <= 200));
    assert_eq!(range.len(), plan.iter().filter(|e| e.p > 100).count());
    assert!(build_k_sieve_plan_range(20, 200, 200).is_empty());
}

#[test]
fn sieve_matches_trial_division() {
    let n = 20;
    let limit = 2000;
    let k_start = align_k_start(1_000_000);
    let k_count = 3000;
    let plan = build_k_sieve_plan(n, limit);
    let alive = sieve_k_batch(n, k_start, k_count, &plan);
    let offs = survivor_offsets(&alive, k_count);
    let expected: Vec<u64> = (0..k_count as u64)
        .filter(|&i| trial_survives(k_start + 6 * i, n, limit))
        .collect();
    assert_eq!(offs, expected);
    assert!(!bit_is_set(&alive, k_count + 1));
    for (i, &off) in offs.iter().enumerate() {
        if i > 0 {
            assert!(offs[i - 1] < off);
        }
        assert!(candidate_survives_plan(n, k_start + 6 * off, &plan));
    }
}

#[test]
fn sieve_keeps_pairs_that_are_their_own_primes() {
    // n = 1, k = 3: the pair (5, 7) is prime and is not removed by 5 or 7.
    let plan = build_k_sieve_plan(1, 50);
    let alive = sieve_k_batch(1, 3, 3, &plan);
    assert!(bit_is_set(&alive, 0));
    // k = 9: (17, 19) kept too; k = 15: (29, 31) kept.
    assert!(bit_is_set(&alive, 1));
    assert!(bit_is_set(&alive, 2));
}

#[test]
fn later_own_prime_does_not_restore_a_ruled_out_candidate() {
    // n = 1, k = 27: 27*2 - 1 = 53 is prime and 27*2 + 1 = 55 = 5 * 11.
    // 5 rules the pair out; 53 being one of the pair does not bring it back.
    let plan = build_k_sieve_plan(1, 60);
    let alive = sieve_k_batch(1, 3, 5, &plan);
    assert!(!bit_is_set(&alive, 4));
    assert!(!trial_survives(27, 1, 60));
    assert!(!candidate_survives_plan(1, 27, &plan));
    let v = validate_k_sieve(1, 3, 5, 60);
    assert_eq!(v.mismatch_count, 0);
    assert_eq!(v.predicted_survivors, v.exact_survivors);
    assert_eq!(v.exact_survivors, 4);
    // n = 2, k = 9: 35 = 5 * 7 and 37 is prime.
    let plan = build_k_sieve_plan(2, 37);
    assert_eq!(sieve_k_batch(2, 9, 1, &plan), vec![0u64]);
    assert!(!candidate_survives_plan(2, 9, &plan));
    let v = validate_k_sieve(2, 9, 1, 37);
    assert_eq!(v.mismatch_count, 0);
    assert_eq!(v.exact_survivors, 0);
    assert_eq!(v.predicted_survivors, 0);
}

#[test]
fn filter_with_range_plan_equals_deeper_sieve() {
    let n = 1000;
    let base = generate_survivor_batch(n, 3, 10_000, 2000, 1).unwrap();
    let post = build_k_sieve_plan_range(n, 2000, 20_000);
    let filtered = filter_survivors_with_plan(n, &base.survivors, &post);
    let deep = generate_survivor_batch(n, 3, 10_000, 20_000, 1).unwrap();
    assert_eq!(filtered, deep.survivors);
    assert!(filtered.len() < base.survivors.len());
    assert_eq!(filter_survivors_with_plan(n, &base.survivors, &[]), base.survivors);
}

#[test]
fn generated_batch_fields() {
    let b = generate_survivor_batch(1000, 5, 4096, 5000, 3).unwrap();
    assert_eq!(b.k_start, 9);
    assert_eq!(b.batch_k0, 9 + 6 * 4096 * 3);
    assert_eq!(b.batch_index, 3);
    assert_eq!(b.total_input_k, 4096);
    assert_eq!(b.sieve_limit, 5000);
    assert!(b.survivors.iter().all(|&k| (k - b.batch_k0) % 6 == 0 && k < b.batch_k0 + 6 * 4096));
    let plan = build_k_sieve_plan(1000, 5000);
    let again = generate_survivor_batch_with_plan(1000, 5, 4096, 5000, 3, &plan).unwrap();
    assert_eq!(again.survivors, b.survivors);
    assert!(generate_survivor_batch(1000, u64::MAX - 10, 16, 100, 1).is_none());
}

#[test]
fn validation_agrees_with_trial_division() {
    let v = validate_k_sieve(30, 1_000_000, 2000, 3000);
    assert_eq!(v.k_start, 1_000_005);
    assert_eq!(v.mismatch_count, 0);
    assert_eq!(v.predicted_survivors, v.exact_survivors);
    assert!(v.exact_survivors > 0 && v.exact_survivors < 2000);
}

#[test]
fn prime_pairs_are_never_sieved_out() {
    let is_prime = |x: u128| x > 1 && (2..).take_while(|d| d * d <= x).all(|d| x % d != 0);
    let mut pairs = 0;
    for n in 1..12u64 {
        let plan = build_k_sieve_plan(n, 1000);
        let alive = sieve_k_batch(n, 3, 400, &plan);
        for idx in 0..400u64 {
            let k = 3 + 6 * idx;
            let x = (k as u128) << n;
            if is_prime(x - 1) && is_prime(x + 1) {
                pairs += 1;
                assert!(trial_survives(k, n, 1000));
                assert!(bit_is_set(&alive, idx as usize), "n={} k={}", n, k);
            }
        }
    }
    assert!(pairs > 10);
}

fn plan_rows(plan: &[twin_prime_engine::fixed_n::KPlan]) -> Vec<(u32, u32, u32, u32)> {
    plan.iter().map(|e| (e.p, e.inv6, e.bad1, e.bad2)).collect()
}

#[test]
fn base_plan_then_range_plan_is_the_deeper_plan() {
    let n = 1000;
    let mut joined = plan_rows(&build_k_sieve_plan(n, 2000));
    joined.extend(plan_rows(&build_k_sieve_plan_range(n, 2000, 20_000)));
    assert_eq!(joined, plan_rows(&build_k_sieve_plan(n, 20_000)));
    assert!(build_k_sieve_plan_range(n, 2000, 2000).is_empty());
    assert!(build_k_sieve_plan_range(n, 2000, 1000).is_empty());
}

#[test]
fn consecutive_batches_join_into_one_batch() {
    let n = 1288907;
    let plan = build_k_sieve_plan(n, 5000);
    let bs = 1000;
    let mut joined = Vec::new();
    for i in 0..4u64 {
        let b = generate_survivor_batch_with_plan(n, 100, bs, 5000, i, &plan).unwrap();
        assert_eq!(b.batch_k0, batch_k0(b.k_start, bs, i).unwrap());
        if i > 0 {
            assert_eq!(b.batch_k0, batch_k0(b.k_start, bs, i - 1).unwrap() + 6 * bs as u64);
        }
        joined.extend(b.survivors);
    }
    let whole = generate_survivor_batch_with_plan(n, 100, 4 * bs, 5000, 0, &plan).unwrap();
    assert_eq!(joined, whole.survivors);
    assert!(!joined.is_empty());
}

use twin_prime_engine::arith::{mod_inv_prime, pow_mod_u64};
use twin_prime_engine::corridor::inv6_mod;
use twin_prime_engine::primes::prime_sieve;

#[test]
fn pow_mod_small_values() {
    assert_eq!(pow_mod_u64(2, 10, 1000), 24);
    assert_eq!(pow_mod_u64(3, 0, 7), 1);
    assert_eq!(pow_mod_u64(5, 3, 13), 125 % 13);
    assert_eq!(pow_mod_u64(10, 5, 1), 0);
}

#[test]
fn pow_mod_empty_product_is_not_reduced() {
    assert_eq!(pow_mod_u64(7, 0, 1), 1);
}

#[test]
fn pow_mod_large_base_and_exponent() {
    // 2^64 mod 1_000_000_007 computed by repeated squaring in u128
    let mut expect: u128 = 1;
    for _ in 0..64 {
        expect = expect * 2 % 1_000_000_007;
    }
    assert_eq!(pow_mod_u64(2, 64, 1_000_000_007) as u128, expect);
    assert_eq!(pow_mod_u64(u64::MAX, 3, 97), ((u64::MAX % 97) as u128).pow(3) as u32 % 97);
}

#[test]
fn mod_inverse_of_prime_is_inverse() {
    for p in prime_sieve(2000) {
        if p < 5 {
            continue;
        }
        for a in [2u32, 3, 6, 7, 1234] {
            if a % p == 0 {
                continue;
            }
            let inv = mod_inv_prime(a, p);
            assert!(inv < p);
            assert_eq!((a as u64 * inv as u64) % p as u64, 1, "a={} p={}", a, p);
        }
    }
}

#[test]
fn inverse_of_six() {
    assert_eq!(inv6_mod(5), 1);
    assert_eq!(inv6_mod(7), 6);
    assert_eq!(inv6_mod(11), 2);
    assert_eq!(inv6_mod(13), 11);
    for p in prime_sieve(100_000) {
        if p < 5 {
            continue;
        }
        assert_eq!((6 * inv6_mod(p) as u64) % p as u64, 1);
    }
}

#[test]
fn prime_sieve_small_limits() {
    assert_eq!(prime_sieve(0), Vec::<u32>::new());
    assert_eq!(prime_sieve(1), Vec::<u32>::new());
    assert_eq!(prime_sieve(2), vec![2]);
    assert_eq!(prime_sieve(30), vec![2, 3, 5, 7, 11, 13, 17, 19, 23, 29]);
    assert_eq!(prime_sieve(31).last(), Some(&31));
}

#[test]
fn prime_sieve_counts() {
    assert_eq!(prime_sieve(1000).len(), 168);
    assert_eq!(prime_sieve(100_000).len(), 9592);
    assert_eq!(prime_sieve(1_000_000).len(), 78498);
    let ps = prime_sieve(10_000);
    for w in ps.windows(2) {
        assert!(w[0] < w[1]);
    }
}

//! Sieve of Eratosthenes on a packed byte bitset.
use vstd::arithmetic::div_mod::*;
use vstd::arithmetic::mul::*;
use vstd::prelude::*;
use vstd::std_specs::bits::*;

use crate::bits::{byte_bit, lemma_byte_clear, lemma_byte_clear_lowest, lemma_byte_full, lemma_byte_mask_test, lemma_byte_trailing};
use crate::number_theory::is_prime;

verus! {

/// Bit `m` of a byte bitset (bit `m % 8` of byte `m / 8`).
pub open spec fn sieve_bit(s: Seq<u8>, m: int) -> bool {
    byte_bit(s[m / 8], m % 8)
}

/// `m >= 2` and no `q` in `[2, p)` with `q * q <= m` divides `m`: what the
/// sieve still holds for `m` once every `q < p` has been crossed out.
pub open spec fn uncrossed(m: int, p: int) -> bool {
    &&& m >= 2
    &&& forall|q: int| 2 <= q < p && #[trigger] (m % q) == 0 ==> q * q > m
}

/// The primes in `[0, n)`, ascending.
pub open spec fn primes_below(n: int) -> Seq<u32>
    decreases n,
{
    if n <= 0 {
        seq![]
    } else if is_prime(n - 1) {
        primes_below(n - 1).push((n - 1) as u32)
    } else {
        primes_below(n - 1)
    }
}

/// Once every `q` with `q * q <= m` has been tried, an uncrossed `m` is prime.
pub proof fn lemma_uncrossed_is_prime(m: int, p: int)
    requires
        2 <= p,
        m < p * p,
    ensures
        uncrossed(m, p) <==> is_prime(m),
{
    if uncrossed(m, p) {
        assert forall|d: int| 2 <= d < m implies #[trigger] (m % d) != 0 by {
            if m % d == 0 {
                lemma_fundamental_div_mod(m, d);
                let e = m / d;
                assert(m == d * e);
                assert(e >= 2) by (nonlinear_arith)
                    requires m == d * e, d < m, d >= 2;
                let q = if d <= e { d } else { e };
                assert(q * q <= m) by (nonlinear_arith)
                    requires m == d * e, q == d || q == e, q <= d, q <= e, q >= 2;
                assert(q < p) by (nonlinear_arith)
                    requires q * q <= m, m < p * p, q >= 2, p >= 2;
                if q == e {
                    lemma_fundamental_div_mod_converse(m, e, d, 0);
                }
                assert(m % q == 0);
            }
        }
    }
    if is_prime(m) {
        assert forall|q: int| 2 <= q < p && #[trigger] (m % q) == 0 implies q * q > m by {
            if q < m {
            } else {
                assert(q * q > m) by (nonlinear_arith)
                    requires q >= m, m >= 2;
            }
        }
    }
}

/// Crossing out `p` adds exactly its multiples from `p * p` on.
pub proof fn lemma_uncrossed_step(m: int, p: int)
    requires
        2 <= p,
    ensures
        uncrossed(m, p + 1) == (uncrossed(m, p) && !(m % p == 0 && p * p <= m)),
        !uncrossed(p, p) && m % p == 0 && p * p <= m ==> !uncrossed(m, p),
{
    if uncrossed(m, p) && !(m % p == 0 && p * p <= m) {
        assert forall|q: int| 2 <= q < p + 1 && #[trigger] (m % q) == 0 implies q * q > m by {
            if q < p {
            }
        }
    }
    if !uncrossed(p, p) && m % p == 0 && p * p <= m {
        if p >= 2 {
            let q = choose|q: int| 2 <= q < p && #[trigger] (p % q) == 0 && q * q <= p;
            lemma_fundamental_div_mod(p, q);
            lemma_fundamental_div_mod(m, p);
            let a = p / q;
            let b = m / p;
            assert(m == q * (a * b)) by (nonlinear_arith)
                requires p == q * a, m == p * b;
            lemma_mod_multiples_basic(a * b, q);
            lemma_mul_is_commutative(q, a * b);
            assert(m % q == 0);
            assert(p <= p * p) by (nonlinear_arith)
                requires p >= 2;
            assert(q * q <= m);
        }
    }
}

proof fn lemma_next_multiple(m: int, j: int, p: int)
    requires
        p > 0,
        j % p == 0,
        m % p == 0,
        j < m,
    ensures
        m >= j + p,
{
    lemma_fundamental_div_mod(j, p);
    lemma_fundamental_div_mod(m, p);
    let a = j / p;
    let b = m / p;
    assert(a < b) by (nonlinear_arith)
        requires j == p * a, m == p * b, j < m, p > 0;
    assert(p * a + p <= p * b) by (nonlinear_arith)
        requires a < b, p > 0;
}

proof fn lemma_bit_index(m: usize)
    ensures
        m >> 3usize == m / 8,
        m & 7usize == m % 8,
{
    assert(m >> 3usize == m / 8) by (bit_vector);
    assert(m & 7usize == m % 8) by (bit_vector);
}

/// The primes up to `limit`, ascending, by a byte-bitset sieve of Eratosthenes.
pub fn prime_sieve(limit: usize) -> (primes: Vec<u32>)
    requires
        limit <= u32::MAX,
        limit + 0x10000 <= usize::MAX,
    ensures
        primes@ == primes_below(limit + 1),
{
    let num_bytes = limit / 8 + 1;
    let mut sieve = vec![0xFFu8; num_bytes];
    let b0 = sieve[0];
    sieve.set(0, b0 & 0b11111100u8);
    proof {
        assert forall|m: int| 0 <= m <= limit implies #[trigger] sieve_bit(sieve@, m) == uncrossed(m, 2) by {
            lemma_byte_full((m % 8) as u8);
            if m >= 8 {
                assert(m / 8 > 0);
            }
        }
    }
    let mut p: usize = 2;
    while p <= limit / p
        invariant
            num_bytes == limit / 8 + 1,
            sieve@.len() == num_bytes,
            limit <= u32::MAX,
            limit + 0x10000 <= usize::MAX,
            2 <= p,
            p <= 0x10000,
            forall|m: int| 0 <= m <= limit ==> #[trigger] sieve_bit(sieve@, m) == uncrossed(m, p as int),
        decreases limit + 1 - p,
    {
        proof {
            lemma_bit_index(p);
            lemma_byte_mask_test(sieve@[(p / 8) as int], (p % 8) as u8);
            assert(p * p <= limit) by (nonlinear_arith)
                requires p <= limit / p, p >= 2;
            assert(p < 0x10000) by (nonlinear_arith)
                requires p * p <= limit, limit <= 0xffff_ffff;
        }
        if sieve[p >> 3] & (1u8 << ((p & 7) as u8)) != 0 {
            let mut j = p * p;
            proof {
                lemma_mod_multiples_basic(p as int, p as int);
            }
            while j <= limit
                invariant
                    num_bytes == limit / 8 + 1,
                    sieve@.len() == num_bytes,
                    limit <= u32::MAX,
                    limit + 0x10000 <= usize::MAX,
                    2 <= p < 0x10000,
                    p * p <= j,
                    j <= limit + p,
                    j % p == 0,
                    forall|m: int|
                        0 <= m <= limit ==> #[trigger] sieve_bit(sieve@, m) == (uncrossed(m, p as int) && !(m
                            % (p as int) == 0 && p * p <= m < j)),
                decreases limit + p - j,
            {
                let ghost old_sieve = sieve@;
                proof {
                    lemma_bit_index(j);
                }
                let old_byte = sieve[j >> 3];
                sieve.set(j >> 3, old_byte & !(1u8 << ((j & 7) as u8)));
                proof {
                    assert(sieve@[(j / 8) as int] == old_byte & !(1u8 << ((j % 8) as u8)));
                    assert forall|m: int| 0 <= m <= limit implies #[trigger] sieve_bit(sieve@, m) == (
                    uncrossed(m, p as int) && !(m % (p as int) == 0 && p * p <= m < j + p)) by {
                        assert(sieve_bit(old_sieve, m) == (uncrossed(m, p as int) && !(m % (p as int) == 0 && p * p <= m < j)));
                        if m / 8 == j / 8 {
                            lemma_byte_clear(old_byte, (j % 8) as u8, (m % 8) as u8);
                        }
                        if m % (p as int) == 0 && j < m && m < j + p {
                            lemma_next_multiple(m, j as int, p as int);
                        }
                    }
                    lemma_mod_add_multiples_vanish(j as int, p as int);
                }
                j += p;
            }
            proof {
                assert forall|m: int| 0 <= m <= limit implies #[trigger] sieve_bit(sieve@, m) == uncrossed(
                    m,
                    p + 1,
                ) by {
                    lemma_uncrossed_step(m, p as int);
                    assert(m < j);
                    assert(sieve_bit(sieve@, m) == (uncrossed(m, p as int) && !(m % (p as int) == 0 && p * p <= m < j)));
                }
            }
        } else {
            proof {
                assert(p <= limit) by (nonlinear_arith)
                    requires p * p <= limit, p >= 2;
                assert(!sieve_bit(sieve@, p as int));
                assert(!uncrossed(p as int, p as int));
                assert forall|m: int| 0 <= m <= limit implies #[trigger] sieve_bit(sieve@, m) == uncrossed(
                    m,
                    p + 1,
                ) by {
                    lemma_uncrossed_step(m, p as int);
                }
            }
        }
        p += 1;
    }
    proof {
        assert(limit < p * p) by (nonlinear_arith)
            requires p > limit / p, p >= 2;
    }
    proof {
        assert forall|m: int| 0 <= m <= limit implies #[trigger] sieve_bit(sieve@, m) == is_prime(m) by {
            lemma_uncrossed_is_prime(m, p as int);
        }
    }
    let ghost sieved = sieve@;
    let mut primes: Vec<u32> = Vec::new();
    let mut byte_idx: usize = 0;
    while byte_idx < num_bytes
        invariant
            num_bytes == limit / 8 + 1,
            sieve@ == sieved,
            sieved.len() == num_bytes,
            limit <= u32::MAX,
            byte_idx <= num_bytes,
            forall|m: int| 0 <= m <= limit ==> #[trigger] sieve_bit(sieved, m) == is_prime(m),
            primes@ == primes_below(min_int(8 * byte_idx, limit + 1)),
        decreases num_bytes - byte_idx,
    {
        let byte = sieve[byte_idx];
        let base = byte_idx * 8;
        proof {
            assert forall|i: int| 0 <= i < 8 implies #[trigger] sieve_bit(sieved, base + i) == byte_bit(
                byte,
                i,
            ) by {
                lemma_byte_position(byte_idx as int, i);
            }
        }
        if byte == 0 {
            proof {
                assert forall|i: int| 0 <= i < 8 implies !#[trigger] byte_bit(byte, i) by {
                    lemma_byte_trailing(byte, i as u8);
                }
                assert forall|m: int|
                    min_int(8 * byte_idx, limit + 1) <= m < min_int(8 * byte_idx + 8, limit + 1)
                    implies !is_prime(m) by {
                    assert(sieve_bit(sieved, base + (m - base)) == byte_bit(byte, m - base));
                }
                lemma_primes_below_gap(
                    min_int(8 * byte_idx, limit + 1),
                    min_int(8 * byte_idx + 8, limit + 1),
                );
            }
        } else {
            let mut b = byte;
            let ghost mut lo: int = 0;
            loop
                invariant_except_break
                    0 <= lo <= 8,
                    base == 8 * byte_idx,
                    byte_idx < num_bytes,
                    num_bytes == limit / 8 + 1,
                    limit <= u32::MAX,
                    forall|i: int| 0 <= i < 8 ==> #[trigger] byte_bit(b, i) == (byte_bit(byte, i) && i >= lo),
                    forall|i: int| 0 <= i < 8 ==> #[trigger] sieve_bit(sieved, base + i) == byte_bit(byte, i),
                    forall|m: int| 0 <= m <= limit ==> #[trigger] sieve_bit(sieved, m) == is_prime(m),
                    primes@ == primes_below(min_int(base + lo, limit + 1)),
                ensures
                    primes@ == primes_below(min_int(base + 8, limit + 1)),
                decreases 8 - lo,
            {
                if b == 0 {
                    proof {
                        assert forall|m: int|
                            min_int(base + lo, limit + 1) <= m < min_int(base + 8, limit + 1)
                            implies !is_prime(m) by {
                            lemma_byte_trailing(b, (m - base) as u8);
                            assert(sieve_bit(sieved, base + (m - base)) == byte_bit(byte, m - base));
                            assert(!byte_bit(b, m - base));
                        }
                        lemma_primes_below_gap(min_int(base + lo, limit + 1), min_int(base + 8, limit + 1));
                    }
                    break;
                }
                let ghost old_b = b;
                proof {
                    lemma_byte_trailing(b, 0);
                }
                let bit = b.trailing_zeros() as usize;
                let num = base + bit;
                proof {
                    assert forall|i: int| 0 <= i < 8 implies (i < bit ==> !#[trigger] byte_bit(b, i)) && (
                    i == bit ==> byte_bit(b, i)) by {
                        lemma_byte_trailing(b, i as u8);
                    }
                    assert(byte_bit(b, bit as int));
                    assert(bit >= lo);
                    assert forall|m: int| base + lo <= m < base + bit && m <= limit implies !is_prime(m) by {
                        assert(sieve_bit(sieved, base + (m - base)) == byte_bit(byte, m - base));
                        assert(!byte_bit(b, m - base));
                    }
                    lemma_primes_below_gap(min_int(base + lo, limit + 1), min_int(base + bit, limit + 1));
                }
                if num > limit {
                    proof {
                        assert(min_int(base + bit, limit + 1) == limit + 1);
                        assert(min_int(base + 8, limit + 1) == limit + 1);
                    }
                    break;
                }
                proof {
                    assert(sieve_bit(sieved, base + bit) == byte_bit(byte, bit as int));
                    assert(is_prime(num as int) == byte_bit(b, bit as int));
                    assert(byte_bit(b, bit as int));
                }
                if num >= 2 {
                    primes.push(num as u32);
                }
                proof {
                    assert(is_prime(num as int) ==> num >= 2);
                    assert(primes_below(num + 1) == if is_prime(num as int) {
                        primes_below(num as int).push(num as u32)
                    } else {
                        primes_below(num as int)
                    });
                }
                b &= b - 1;
                proof {
                    let old_lo = lo;
                    lo = bit + 1;
                    assert(b == old_b & ((old_b - 1) as u8));
                    assert forall|i: int| 0 <= i < 8 implies #[trigger] byte_bit(b, i) == (byte_bit(
                        byte,
                        i,
                    ) && i >= lo) by {
                        lemma_byte_clear_lowest(old_b, i as u8);
                        assert(byte_bit(old_b, i) == (byte_bit(byte, i) && i >= old_lo));
                    }
                }
            }
        }
        byte_idx += 1;
    }
    proof {
        assert(min_int(8 * byte_idx, limit + 1) == limit + 1);
    }
    primes
}

/// The smaller of two integers.
pub open spec fn min_int(a: int, b: int) -> int {
    if a <= b {
        a
    } else {
        b
    }
}

proof fn lemma_byte_position(byte_idx: int, i: int)
    requires
        byte_idx >= 0,
        0 <= i < 8,
    ensures
        (8 * byte_idx + i) / 8 == byte_idx,
        (8 * byte_idx + i) % 8 == i,
{
    lemma_fundamental_div_mod_converse(8 * byte_idx + i, 8, byte_idx, i);
}

/// No prime in `[a, b)` leaves the prime list unchanged.
pub proof fn lemma_primes_below_gap(a: int, b: int)
    requires
        a <= b,
        forall|m: int| a <= m < b ==> !is_prime(m),
    ensures
        primes_below(a) == primes_below(b),
    decreases b - a,
{
    if a < b {
        lemma_primes_below_gap(a, b - 1);
        if b - 1 < 0 {
        }
    }
}

/// The list holds exactly the primes below `n`, each once, ascending.
pub proof fn lemma_primes_below_props(n: int)
    requires
        n <= u32::MAX + 1,
    ensures
        forall|i: int| 0 <= i < primes_below(n).len() ==> is_prime(#[trigger] primes_below(n)[i] as int)
            && primes_below(n)[i] < n,
        forall|i: int, j: int|
            0 <= i < j < primes_below(n).len() ==> #[trigger] primes_below(n)[i] < #[trigger] primes_below(n)[j],
        forall|m: int| 0 <= m < n && is_prime(m) ==> #[trigger] primes_below(n).contains(m as u32),
    decreases n,
{
    if n > 0 {
        lemma_primes_below_props(n - 1);
        let prev = primes_below(n - 1);
        if is_prime(n - 1) {
            assert(primes_below(n) == prev.push((n - 1) as u32));
            assert(primes_below(n)[prev.len() as int] == (n - 1) as u32);
            assert forall|m: int| 0 <= m < n && is_prime(m) implies #[trigger] primes_below(n).contains(m as u32) by {
                if m < n - 1 {
                    assert(prev.contains(m as u32));
                    let k = choose|k: int| 0 <= k < prev.len() && prev[k] == m as u32;
                    assert(primes_below(n)[k] == m as u32);
                } else {
                    assert(primes_below(n)[prev.len() as int] == m as u32);
                }
            }
        }
    }
}

} // verus!

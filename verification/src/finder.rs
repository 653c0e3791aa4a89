//! The finite-range corridor finder: candidate pairs `(6m - 1, 6m + 1)` up to
//! a limit, masked by the small primes up to a cutoff.
use vstd::arithmetic::div_mod::*;
use vstd::arithmetic::mul::*;
use vstd::prelude::*;

use crate::number_theory::is_prime;
use crate::primes::{lemma_uncrossed_is_prime, lemma_uncrossed_step, uncrossed};
use crate::ranking::ascending_n;
use crate::text::{ranking_label, spec_ranking_label};

verus! {

/// A sieve of Eratosthenes as a boolean table: entry `m` is whether `m` is prime.
pub fn sieve_bool(limit: usize) -> (sieve: Vec<bool>)
    requires
        limit < usize::MAX / 4,
    ensures
        sieve@.len() == limit + 1,
        forall|m: int| 0 <= m <= limit ==> #[trigger] sieve@[m] == is_prime(m),
{
    if limit < 2 {
        let v = vec![false; limit + 1];
        proof {
            assert forall|m: int| 0 <= m <= limit implies #[trigger] v@[m] == is_prime(m) by {
                assert(v@[m] == false);
            }
        }
        return v;
    }
    let mut sieve = vec![true; limit + 1];
    sieve.set(0, false);
    sieve.set(1, false);
    proof {
        assert forall|m: int| 0 <= m <= limit implies #[trigger] sieve@[m] == uncrossed(m, 2) by {
            if m >= 2 {
                assert(sieve@[m]);
            }
        }
    }
    let mut p: usize = 2;
    while p * p <= limit
        invariant
            sieve@.len() == limit + 1,
            2 <= limit < usize::MAX / 4,
            2 <= p <= limit + 1,
            (p - 1) * (p - 1) <= limit,
            p * p <= 3 * limit + 1,
            forall|m: int| 0 <= m <= limit ==> #[trigger] sieve@[m] == uncrossed(m, p as int),
        decreases limit + 1 - p,
    {
        proof {
            assert(p <= limit) by (nonlinear_arith)
                requires p * p <= limit, p >= 2;
        }
        if sieve[p] {
            let mut k = p * p;
            proof {
                lemma_mod_multiples_basic(p as int, p as int);
            }
            while k <= limit
                invariant
                    sieve@.len() == limit + 1,
                    2 <= limit < usize::MAX / 4,
                    2 <= p <= limit,
                    p * p <= limit,
                    p * p <= k <= limit + p,
                    k % p == 0,
                    forall|m: int|
                        0 <= m <= limit ==> #[trigger] sieve@[m] == (uncrossed(m, p as int) && !(m
                            % (p as int) == 0 && p * p <= m < k)),
                decreases limit + p - k,
            {
                let ghost old_sieve = sieve@;
                sieve.set(k, false);
                proof {
                    assert forall|m: int| 0 <= m <= limit implies #[trigger] sieve@[m] == (uncrossed(
                        m,
                        p as int,
                    ) && !(m % (p as int) == 0 && p * p <= m < k + p)) by {
                        assert(old_sieve[m] == (uncrossed(m, p as int) && !(m % (p as int) == 0 && p
                            * p <= m < k)));
                        if m % (p as int) == 0 && k < m && m < k + p {
                            lemma_mod_mult_next(m, k as int, p as int);
                        }
                    }
                    lemma_mod_add_multiples_vanish(k as int, p as int);
                }
                k += p;
            }
            proof {
                assert forall|m: int| 0 <= m <= limit implies #[trigger] sieve@[m] == uncrossed(
                    m,
                    p + 1,
                ) by {
                    lemma_uncrossed_step(m, p as int);
                }
            }
        } else {
            proof {
                assert(p <= limit) by (nonlinear_arith)
                    requires p * p <= limit, p >= 2;
                assert(!uncrossed(p as int, p as int));
                assert forall|m: int| 0 <= m <= limit implies #[trigger] sieve@[m] == uncrossed(
                    m,
                    p + 1,
                ) by {
                    lemma_uncrossed_step(m, p as int);
                }
            }
        }
        proof {
            assert(p <= limit) by (nonlinear_arith)
                requires p * p <= limit, p >= 2;
            assert((p + 1) * (p + 1) <= 3 * limit + 1) by (nonlinear_arith)
                requires p * p <= limit, p <= limit;
            assert(p * p <= limit);
        }
        p += 1;
    }
    proof {
        assert forall|m: int| 0 <= m <= limit implies #[trigger] sieve@[m] == is_prime(m) by {
            lemma_uncrossed_is_prime(m, p as int);
        }
    }
    sieve
}

proof fn lemma_mod_mult_next(m: int, k: int, p: int)
    requires
        p > 0,
        k % p == 0,
        m % p == 0,
        k < m,
    ensures
        m >= k + p,
{
    lemma_fundamental_div_mod(k, p);
    lemma_fundamental_div_mod(m, p);
    let a = k / p;
    let b = m / p;
    assert(a < b) by (nonlinear_arith)
        requires k == p * a, m == p * b, k < m, p > 0;
    assert(p * a + p <= p * b) by (nonlinear_arith)
        requires a < b, p > 0;
}

/// The indices in `[2, m)` marked in `sieve`, ascending.
pub open spec fn marked_below(sieve: Seq<bool>, m: int) -> Seq<usize>
    decreases m,
{
    if m <= 2 {
        seq![]
    } else if sieve[m - 1] {
        marked_below(sieve, m - 1).push((m - 1) as usize)
    } else {
        marked_below(sieve, m - 1)
    }
}

/// The marked indices from 2 to `limit`, ascending.
pub fn prime_list_from_sieve(sieve: &[bool], limit: usize) -> (primes: Vec<usize>)
    requires
        limit < sieve@.len(),
    ensures
        primes@ == marked_below(sieve@, limit + 1),
{
    let mut primes: Vec<usize> = Vec::new();
    let mut p: usize = 2;
    while p <= limit
        invariant
            limit < sieve@.len(),
            2 <= p,
            p <= limit + 1 || p == 2,
            primes@ == marked_below(sieve@, p as int),
        decreases limit + 1 - p,
    {
        if sieve[p] {
            primes.push(p);
        }
        p += 1;
    }
    primes
}

/// The largest marked index from 2 to `limit`, if any.
pub fn largest_prime_leq(sieve: &[bool], limit: usize) -> (r: Option<usize>)
    requires
        limit < sieve@.len(),
    ensures
        r is None <==> forall|m: int| 2 <= m <= limit ==> !#[trigger] sieve@[m],
        r matches Some(p) ==> 2 <= p <= limit && sieve@[p as int] && forall|m: int|
            p < m <= limit ==> !#[trigger] sieve@[m],
{
    let mut p: usize = limit;
    while p >= 2
        invariant
            limit < sieve@.len(),
            p <= limit,
            forall|m: int| p < m <= limit ==> !#[trigger] sieve@[m],
        decreases p,
    {
        if sieve[p] {
            return Some(p);
        }
        p -= 1;
    }
    None
}

/// The integer square root: the largest `r` with `r * r <= n`.
pub fn integer_sqrt(n: usize) -> (r: usize)
    ensures
        r * r <= n,
        n < (r + 1) * (r + 1),
{
    let mut lo: u64 = 0;
    let mut hi: u64 = 0x1_0000_0000;
    proof {
        assert(n < 0x1_0000_0000 * 0x1_0000_0000) by (nonlinear_arith)
            requires n <= u64::MAX;
    }
    while hi - lo > 1
        invariant
            lo < hi <= 0x1_0000_0000,
            lo * lo <= n,
            n < hi * hi,
        decreases hi - lo,
    {
        let mid = lo + (hi - lo) / 2;
        proof {
            assert(mid * mid <= 0x1_0000_0000 * 0x1_0000_0000) by (nonlinear_arith)
                requires mid <= 0x1_0000_0000;
        }
        if (mid as u128) * (mid as u128) <= n as u128 {
            lo = mid;
        } else {
            hi = mid;
        }
    }
    proof {
        assert(lo <= n) by (nonlinear_arith)
            requires lo * lo <= n, lo >= 0;
        assert(hi == lo + 1);
    }
    lo as usize
}

/// Greatest common divisor of non-negative integers (Euclid).
pub open spec fn spec_gcd(a: int, b: int) -> int
    decreases b,
{
    if b <= 0 {
        a
    } else {
        spec_gcd(b, a % b)
    }
}

/// The absolute value.
pub open spec fn abs_int(x: int) -> int {
    if x < 0 {
        -x
    } else {
        x
    }
}

/// Extended Euclid: `(g, x, y)` with `g = gcd(a, b)` and `a*x + b*y == g`.
fn egcd(a: i64, b: i64) -> (r: (i64, i64, i64))
    requires
        a >= 0,
        b >= 0,
    ensures
        r.0 == spec_gcd(a as int, b as int),
        a * r.1 + b * r.2 == r.0,
        b == 0 ==> r.1 == 1 && r.2 == 0,
        b >= 1 ==> abs_int(r.1 as int) <= b && abs_int(r.2 as int) <= (if a >= 1 {
            a as int
        } else {
            1
        }),
    decreases b,
{
    if b == 0 {
        (a, 1, 0)
    } else {
        let q = a / b;
        let rem = a % b;
        proof {
            lemma_fundamental_div_mod(a as int, b as int);
            lemma_mod_bound(a as int, b as int);
        }
        let (g, x, y) = egcd(b, rem);
        proof {
            assert(a == b * q + rem);
            if rem >= 1 {
                assert(-(rem as int) <= x <= rem);
                assert(-(b as int) <= y <= b);
                assert(-(q * b) <= q * y <= q * b) by (nonlinear_arith)
                    requires -(b as int) <= y <= b, q >= 0;
                assert(q * b + rem == a) by (nonlinear_arith)
                    requires a == b * q + rem;
            } else {
                assert(x == 1 && y == 0);
            }
            assert(a * y + b * (x - q * y) == b * x + rem * y) by (nonlinear_arith)
                requires a == b * q + rem;
        }
        let z = x - q * y;
        proof {
            assert(b * x + rem * y == g);
            assert(a * y + b * z == g);
        }
        (g, y, z)
    }
}

proof fn lemma_trunc_mod_normalize(x: int, m: int, t: int)
    requires
        m > 0,
        abs_int(x) <= m,
        x >= 0 ==> t == x % m,
        x < 0 ==> t == -((-x) % m),
    ensures
        -m < t < m,
        (t + m) % m == x % m,
{
    if x >= 0 {
        lemma_mod_bound(x, m);
        lemma_mod_add_multiples_vanish(x % m, m);
        lemma_mod_twice(x, m);
    } else {
        lemma_mod_bound(-x, m);
        lemma_fundamental_div_mod(-x, m);
        let q = (-x) / m;
        let s = (-x) % m;
        assert(x == (-q - 1) * m + (m - s)) by (nonlinear_arith)
            requires -x == m * q + s;
        if s == 0 {
            assert(x == (-q) * m) by (nonlinear_arith)
                requires -x == m * q + s, s == 0;
            lemma_mod_multiples_basic(-q, m);
            lemma_mod_self_0(m);
        } else {
            lemma_fundamental_div_mod_converse(x, m, -q - 1, m - s);
            lemma_small_mod((m - s) as nat, m as nat);
        }
    }
}

/// The inverse of `a` modulo `m`, in `[0, m)`.
pub fn mod_inverse(a: usize, m: usize) -> (r: usize)
    requires
        m > 0,
        a <= i64::MAX,
        m <= i64::MAX,
        spec_gcd(a as int, m as int) == 1,
    ensures
        r < m,
        (a * r) % (m as int) == 1int % (m as int),
{
    let (g, x, y) = egcd(a as i64, m as i64);
    let m_wide = m as i128;
    let t = (x as i128) % m_wide;
    proof {
        lemma_trunc_mod_normalize(x as int, m as int, t as int);
    }
    let r = ((t + m_wide) % m_wide) as usize;
    proof {
        lemma_mod_bound(t + m, m as int);
        // a * x == 1 (mod m)
        assert(a * x == 1 - m * y);
        lemma_mod_multiples_vanish(-y as int, 1, m as int);
        assert(1 - m * y == m * (-y as int) + 1) by (nonlinear_arith);
        lemma_mul_is_commutative(m as int, -y as int);
        lemma_mul_mod_noop_right(a as int, x as int, m as int);
        lemma_mul_mod_noop_right(a as int, r as int, m as int);
        lemma_mod_twice(x as int, m as int);
    }
    r
}

/// The last corridor index `m` with `6m + 1 <= limit_n`.
pub fn max_candidate_m(limit_n: usize) -> (r: usize)
    ensures
        limit_n <= 1 ==> r == 0,
        limit_n > 1 ==> r == (limit_n - 1) / 6,
{
    if limit_n <= 1 {
        0
    } else {
        (limit_n - 1) / 6
    }
}

/// `p` rules out the corridor pair `(6m - 1, 6m + 1)`: it divides one of them
/// without being it.
pub open spec fn pair_blocked_by(m: int, p: int) -> bool {
    ||| ((6 * m - 1) % p == 0 && 6 * m - 1 != p)
    ||| ((6 * m + 1) % p == 0 && 6 * m + 1 != p)
}

/// The mask prime `p` (at least 5 and at most the cutoff) rules out `m`.
pub open spec fn mask_blocks(m: int, p: int, hard_cutoff: int) -> bool {
    &&& 5 <= p <= hard_cutoff
    &&& pair_blocked_by(m, p)
}

/// What `build_survivor_mask` needs of each prime it uses.
pub open spec fn mask_prime_ok(p: int, hard_cutoff: int, max_m: int) -> bool {
    5 <= p <= hard_cutoff ==> (spec_gcd(6, p) == 1 && p <= i64::MAX && max_m + p <= usize::MAX)
}

/// With `inv` the inverse of 6 modulo `p`, `m` is in the class `inv` exactly
/// when `p` divides `6m - 1`, and in the class `-inv` exactly when `p` divides `6m + 1`.
pub proof fn lemma_inverse_class(m: int, p: int, inv: int)
    requires
        p > 1,
        0 <= inv < p,
        (6 * inv) % p == 1,
        m >= 0,
    ensures
        m % p == inv <==> (6 * m - 1) % p == 0,
        m % p == (p - inv) % p <==> (6 * m + 1) % p == 0,
{
    lemma_mul_mod_noop_right(6, m, p);
    lemma_mul_mod_noop_right(6, inv, p);
    if m % p == inv {
        lemma_sub_mod_noop(6 * m, 1, p);
        lemma_small_mod(1, p as nat);
        lemma_small_mod(0, p as nat);
    }
    if (6 * m - 1) % p == 0 {
        // 6m == 1, so m == m * 6 * inv == inv (mod p)
        lemma_fundamental_div_mod(6 * m - 1, p);
        lemma_fundamental_div_mod_converse(6 * m, p, (6 * m - 1) / p, 1);
        lemma_mul_mod_noop_left(6 * m, inv, p);
        lemma_mul_is_commutative(6, m);
        lemma_mul_is_associative(m, 6, inv);
        lemma_mul_mod_noop_right(m, 6 * inv, p);
        lemma_mul_basics(m);
        lemma_mul_is_commutative(6 * m, inv);
        lemma_mul_basics(inv);
        lemma_small_mod(inv as nat, p as nat);
    }
    assert(((p - inv) * 6) % p == p - 1 || p - inv == p) by {
        assert((p - inv) * 6 == p * 6 - 6 * inv) by (nonlinear_arith);
        lemma_fundamental_div_mod(6 * inv, p);
        let q = (6 * inv) / p;
        assert((p - inv) * 6 == p * (5 - q) + (p - 1)) by (nonlinear_arith)
            requires 6 * inv == p * q + 1;
        lemma_fundamental_div_mod_converse((p - inv) * 6, p, 5 - q, p - 1);
    }
    if m % p == (p - inv) % p {
        lemma_small_mod((p - inv) as nat, p as nat);
        lemma_mul_mod_noop_left(m, 6, p);
        lemma_mul_mod_noop_left(p - inv, 6, p);
        lemma_mul_is_commutative(m, 6);
        lemma_add_mod_noop(6 * m, 1, p);
        lemma_small_mod(1, p as nat);
        lemma_mod_self_0(p);
    }
    if (6 * m + 1) % p == 0 {
        // 6m == -1, so m == -inv (mod p)
        lemma_fundamental_div_mod(6 * m + 1, p);
        let q = (6 * m + 1) / p;
        assert(m * (6 * inv) == p * (q * inv) - inv) by (nonlinear_arith)
            requires 6 * m + 1 == p * q;
        lemma_mul_is_associative(m, 6, inv);
        lemma_mul_mod_noop_right(m, 6 * inv, p);
        lemma_mul_basics(m);
        lemma_mod_multiples_vanish(q * inv, -inv, p);
        assert(p * (q * inv) - inv == (q * inv) * p + (-inv)) by (nonlinear_arith);
        if inv == 0 {
            lemma_small_mod(0, p as nat);
        }
        assert((-inv) % p == (p - inv) % p) by {
            lemma_mod_add_multiples_vanish(-inv, p);
        }
    }
}

fn clear_class(alive: &mut Vec<bool>, start: usize, p: usize, max_m: usize, exception: Option<usize>)
    requires
        1 <= start < p,
        max_m + p <= usize::MAX,
        old(alive)@.len() == max_m,
    ensures
        final(alive)@.len() == max_m,
        forall|m: int|
            1 <= m <= max_m ==> #[trigger] final(alive)@[m - 1] == (old(alive)@[m - 1] && !(m % (
            p as int) == start && exception != Some(m as usize))),
{
    let mut m = start;
    proof {
        lemma_small_mod(start as nat, p as nat);
        assert forall|j: int| 1 <= j < start implies #[trigger] (j % (p as int)) != start by {
            lemma_small_mod(j as nat, p as nat);
        }
    }
    while m <= max_m
        invariant
            1 <= start < p,
            max_m + p <= usize::MAX,
            alive@.len() == max_m,
            start <= m <= max_m + p,
            (m as int) % (p as int) == start,
            forall|j: int|
                1 <= j <= max_m ==> #[trigger] alive@[j - 1] == (old(alive)@[j - 1] && !(j < m && j
                    % (p as int) == start && exception != Some(j as usize))),
        decreases max_m + p - m,
    {
        let ghost before = alive@;
        if exception != Some(m) {
            alive.set(m - 1, false);
        }
        proof {
            assert forall|j: int| 1 <= j <= max_m implies #[trigger] alive@[j - 1] == (old(
                alive,
            )@[j - 1] && !(j < m + p && j % (p as int) == start && exception != Some(
                j as usize,
            ))) by {
                assert(before[j - 1] == (old(alive)@[j - 1] && !(j < m && j % (p as int) == start
                    && exception != Some(j as usize))));
                if m < j && j < m + p && j % (p as int) == start {
                    lemma_same_class_next(j, m as int, p as int, start as int);
                }
            }
            lemma_mod_add_multiples_vanish(m as int, p as int);
        }
        m += p;
    }
}

proof fn lemma_same_class_next(j: int, m: int, p: int, r: int)
    requires
        p > 0,
        m % p == r,
        j % p == r,
        m < j,
    ensures
        j >= m + p,
{
    lemma_fundamental_div_mod(m, p);
    lemma_fundamental_div_mod(j, p);
    let a = m / p;
    let b = j / p;
    assert(a < b) by (nonlinear_arith)
        requires m == p * a + r, j == p * b + r, m < j, p > 0;
    assert(p * a + p <= p * b) by (nonlinear_arith)
        requires a < b, p > 0;
}

/// The corridor mask for `1 <= m <= max_m`: entry `m - 1` is whether no mask
/// prime rules `m` out.
pub open spec fn survivor_mask(max_m: int, hard_cutoff: int, primes: Seq<usize>) -> Seq<bool> {
    Seq::new(
        max_m as nat,
        |j: int| !exists|i: int| 0 <= i < primes.len() && #[trigger] mask_blocks(j + 1, primes[i] as int, hard_cutoff),
    )
}

/// The corridor mask: entry `m - 1` (for `1 <= m <= max_m`) is whether no
/// prime of `primes` from 5 to `hard_cutoff` divides `6m - 1` or `6m + 1`
/// without being it.
pub fn build_survivor_mask(max_m: usize, hard_cutoff: usize, primes: &[usize]) -> (alive: Vec<bool>)
    requires
        forall|i: int| 0 <= i < primes@.len() ==> #[trigger] mask_prime_ok(
            primes@[i] as int,
            hard_cutoff as int,
            max_m as int,
        ),
    ensures
        alive@ == survivor_mask(max_m as int, hard_cutoff as int, primes@),
{
    let mut alive = vec![true; max_m];
    let mut i: usize = 0;
    while i < primes.len()
        invariant
            i <= primes@.len(),
            alive@.len() == max_m,
            forall|t: int| 0 <= t < primes@.len() ==> #[trigger] mask_prime_ok(
                primes@[t] as int,
                hard_cutoff as int,
                max_m as int,
            ),
            forall|m: int|
                1 <= m <= max_m ==> #[trigger] alive@[m - 1] == !exists|t: int|
                    0 <= t < i && #[trigger] mask_blocks(m, primes@[t] as int, hard_cutoff as int),
        decreases primes@.len() - i,
    {
        let p = primes[i];
        let ghost before = alive@;
        if p < 5 || p > hard_cutoff {
            proof {
                assert forall|m: int| 1 <= m <= max_m implies #[trigger] alive@[m - 1] == !exists|t: int|
                    0 <= t < i + 1 && #[trigger] mask_blocks(m, primes@[t] as int, hard_cutoff as int) by {
                    if exists|t: int| 0 <= t < i + 1 && #[trigger] mask_blocks(m, primes@[t] as int, hard_cutoff as int) {
                        let t = choose|t: int| 0 <= t < i + 1 && #[trigger] mask_blocks(m, primes@[t] as int, hard_cutoff as int);
                        assert(t != i);
                    }
                }
            }
        } else {
            proof {
                assert(mask_prime_ok(primes@[i as int] as int, hard_cutoff as int, max_m as int));
            }
            let inv6 = mod_inverse(6, p);
            let left_exception = if p % 6 == 5 {
                Some((p + 1) / 6)
            } else {
                None
            };
            let right_exception = if p % 6 == 1 {
                Some((p - 1) / 6)
            } else {
                None
            };
            proof {
                lemma_small_mod(1, p as nat);
                if inv6 == 0 {
                    lemma_small_mod(0, p as nat);
                    assert((6 * inv6) % (p as int) == 0);
                }
            }
            clear_class(&mut alive, inv6, p, max_m, left_exception);
            let r2 = p - inv6;
            clear_class(&mut alive, r2, p, max_m, right_exception);
            proof {
                assert forall|m: int| 1 <= m <= max_m implies #[trigger] alive@[m - 1] == !exists|t: int|
                    0 <= t < i + 1 && #[trigger] mask_blocks(m, primes@[t] as int, hard_cutoff as int) by {
                    lemma_inverse_class(m, p as int, inv6 as int);
                    lemma_small_mod(r2 as nat, p as nat);
                    lemma_exception_position(m, p as int);
                    assert(before[m - 1] == !exists|t: int|
                        0 <= t < i && #[trigger] mask_blocks(m, primes@[t] as int, hard_cutoff as int));
                    if mask_blocks(m, p as int, hard_cutoff as int) {
                        assert(mask_blocks(m, primes@[i as int] as int, hard_cutoff as int));
                    }
                    if exists|t: int| 0 <= t < i + 1 && #[trigger] mask_blocks(m, primes@[t] as int, hard_cutoff as int) {
                        let t = choose|t: int| 0 <= t < i + 1 && #[trigger] mask_blocks(m, primes@[t] as int, hard_cutoff as int);
                        if t < i {
                        }
                    }
                }
            }
        }
        i += 1;
    }
    proof {
        let spec_mask = survivor_mask(max_m as int, hard_cutoff as int, primes@);
        assert forall|j: int| 0 <= j < max_m implies alive@[j] == spec_mask[j] by {
            assert(alive@[(j + 1) - 1] == alive@[j]);
        }
        assert(alive@ =~= spec_mask);
    }
    alive
}

proof fn lemma_exception_position(m: int, p: int)
    requires
        p >= 5,
        m >= 1,
    ensures
        (6 * m - 1 == p) <==> (p % 6 == 5 && m == (p + 1) / 6),
        (6 * m + 1 == p) <==> (p % 6 == 1 && m == (p - 1) / 6),
{
    if 6 * m - 1 == p {
        lemma_fundamental_div_mod_converse(p, 6, m - 1, 5);
        lemma_fundamental_div_mod_converse(p + 1, 6, m, 0);
    }
    if p % 6 == 5 && m == (p + 1) / 6 {
        lemma_fundamental_div_mod(p, 6);
        lemma_fundamental_div_mod_converse(p + 1, 6, p / 6 + 1, 0);
    }
    if 6 * m + 1 == p {
        lemma_fundamental_div_mod_converse(p, 6, m, 1);
        lemma_fundamental_div_mod_converse(p - 1, 6, m, 0);
    }
    if p % 6 == 1 && m == (p - 1) / 6 {
        lemma_fundamental_div_mod(p, 6);
        lemma_fundamental_div_mod_converse(p - 1, 6, p / 6, 0);
    }
}

/// The first prime of `primes[i..]` above `low_exclusive` that rules out the
/// pair `(n, n + 2)`, stopping at the first prime above `high_inclusive`.
pub open spec fn first_blocker_from(
    n: int,
    primes: Seq<usize>,
    low_exclusive: int,
    high_inclusive: int,
    i: int,
) -> Option<usize>
    decreases primes.len() - i,
{
    if i < 0 || i >= primes.len() {
        None
    } else {
        let p = primes[i] as int;
        if p <= low_exclusive {
            first_blocker_from(n, primes, low_exclusive, high_inclusive, i + 1)
        } else if p > high_inclusive {
            None
        } else if (n % p == 0 && n != p) || ((n + 2) % p == 0 && n + 2 != p) {
            Some(p as usize)
        } else {
            first_blocker_from(n, primes, low_exclusive, high_inclusive, i + 1)
        }
    }
}

/// The first prime in `(low_exclusive, high_inclusive]` (in list order, stopping at
/// the first above `high_inclusive`) that divides `n` or `n + 2` without being it.
pub fn first_pair_blocker(
    n: usize,
    primes: &[usize],
    low_exclusive: usize,
    high_inclusive: usize,
) -> (r: Option<usize>)
    requires
        n + 2 <= usize::MAX,
    ensures
        r == first_blocker_from(n as int, primes@, low_exclusive as int, high_inclusive as int, 0),
{
    let q = n + 2;
    let mut i: usize = 0;
    while i < primes.len()
        invariant
            i <= primes@.len(),
            q == n + 2,
            first_blocker_from(n as int, primes@, low_exclusive as int, high_inclusive as int, 0)
                == first_blocker_from(
                n as int,
                primes@,
                low_exclusive as int,
                high_inclusive as int,
                i as int,
            ),
        decreases primes@.len() - i,
    {
        let p = primes[i];
        if p <= low_exclusive {
            i += 1;
            continue;
        }
        if p > high_inclusive {
            return None;
        }
        if n % p == 0 && n != p {
            return Some(p);
        }
        if q % p == 0 && q != p {
            return Some(p);
        }
        i += 1;
    }
    None
}

/// How the hard cutoff was chosen.
#[derive(Clone, Copy, Debug, PartialEq, Eq)]
pub enum FinderMode {
    Fast,
    HighPrecision,
    ExactRange,
}

/// `s` is the integer square root of `n`.
pub open spec fn is_isqrt(s: int, n: int) -> bool {
    s >= 0 && s * s <= n < (s + 1) * (s + 1)
}

/// The largest prime at most `n`, when there is one.
pub open spec fn is_largest_prime_leq(p: int, n: int) -> bool {
    &&& 2 <= p <= n
    &&& is_prime(p)
    &&& forall|q: int| p < q <= n ==> !#[trigger] is_prime(q)
}

/// The hard cutoff for a mode: 211 (fast), 503 (high precision), or the largest
/// prime up to `isqrt(limit_n + 2)` (exact range); a custom cutoff wins.
pub fn resolve_cutoff(limit_n: usize, mode: FinderMode, custom_cutoff: Option<usize>) -> (r: (usize, Option<FinderMode>))
    requires
        limit_n + 2 <= usize::MAX,
        custom_cutoff is None && mode == FinderMode::ExactRange ==> limit_n >= 2,
    ensures
        custom_cutoff matches Some(c) ==> r == (c, None::<FinderMode>),
        custom_cutoff is None ==> r.1 == Some(mode),
        custom_cutoff is None && mode == FinderMode::Fast ==> r.0 == 211,
        custom_cutoff is None && mode == FinderMode::HighPrecision ==> r.0 == 503,
        custom_cutoff is None && mode == FinderMode::ExactRange ==> exists|s: int|
            #[trigger] is_isqrt(s, limit_n + 2) && is_largest_prime_leq(r.0 as int, s),
{
    if let Some(cutoff) = custom_cutoff {
        return (cutoff, None);
    }
    match mode {
        FinderMode::Fast => (211, Some(FinderMode::Fast)),
        FinderMode::HighPrecision => (503, Some(FinderMode::HighPrecision)),
        FinderMode::ExactRange => {
            let root = integer_sqrt(limit_n + 2);
            proof {
                assert(root >= 2) by (nonlinear_arith)
                    requires limit_n + 2 < (root + 1) * (root + 1), limit_n >= 2, root >= 0;
                assert(root < usize::MAX / 4) by (nonlinear_arith)
                    requires root * root <= limit_n + 2, limit_n + 2 <= usize::MAX,
                        usize::MAX >= 0xffff_ffff;
            }
            let sieve = sieve_bool(root);
            let found = largest_prime_leq(&sieve, root);
            proof {
                assert(sieve@[2]);
            }
            let p = match found {
                Some(p) => p,
                None => {
                    proof {
                        assert(!sieve@[2]);
                    }
                    0
                },
            };
            proof {
                assert forall|q: int| p < q <= root implies !#[trigger] is_prime(q) by {
                    assert(!sieve@[q]);
                }
                assert(is_largest_prime_leq(p as int, root as int));
                assert(is_isqrt(root as int, limit_n + 2));
            }
            (p, Some(FinderMode::ExactRange))
        },
    }
}

/// The score depth: given, or 503 for cutoff 211, 997 for 503, else twice the
/// cutoff capped at `isqrt(limit_n + 2)` (or cutoff + 100 when doubling saturates).
pub fn resolve_score_z(hard_cutoff: usize, score_z_arg: Option<usize>, limit_n: usize) -> (r: usize)
    requires
        limit_n + 2 <= usize::MAX,
        hard_cutoff + 100 <= usize::MAX,
    ensures
        score_z_arg matches Some(z) ==> r == z,
        score_z_arg is None && hard_cutoff == 211 ==> r == 503,
        score_z_arg is None && hard_cutoff == 503 ==> r == 997,
        score_z_arg is None && hard_cutoff != 211 && hard_cutoff != 503 ==> ({
            let doubled = if 2 * hard_cutoff <= usize::MAX {
                2 * hard_cutoff
            } else {
                usize::MAX as int
            };
            if doubled > hard_cutoff {
                exists|s: int|
                    #[trigger] is_isqrt(s, limit_n + 2) && r == (if doubled <= s {
                        doubled
                    } else {
                        s
                    })
            } else {
                r == hard_cutoff + 100
            }
        }),
{
    if let Some(score_z) = score_z_arg {
        return score_z;
    }
    match hard_cutoff {
        211 => 503,
        503 => 997,
        _ => {
            let root = integer_sqrt(limit_n + 2);
            let candidate_z = match hard_cutoff.checked_mul(2) {
                Some(v) => v,
                None => usize::MAX,
            };
            proof {
                assert(is_isqrt(root as int, limit_n + 2));
            }
            if candidate_z > hard_cutoff {
                if candidate_z <= root {
                    candidate_z
                } else {
                    root
                }
            } else {
                hard_cutoff + 100
            }
        },
    }
}

/// One candidate pair `(n, n + 2)` with `n = 6m - 1`.
#[derive(Clone, Copy, Debug)]
pub struct Candidate {
    pub n: usize,
    pub pair_right: usize,
    /// The mode that chose the cutoff; `None` for a custom cutoff.
    pub mode: Option<FinderMode>,
    pub hard_cutoff: usize,
    pub soft_to: Option<usize>,
    pub score_z: Option<usize>,
    pub extra_blocker: Option<usize>,
    pub rank_value: Option<usize>,
    pub rank: usize,
}

/// The candidates of a finder run, with the parameters that produced them.
#[derive(Clone, Debug)]
pub struct FinderResult {
    pub limit_n: usize,
    pub mode: Option<FinderMode>,
    pub hard_cutoff: usize,
    pub soft_to: Option<usize>,
    pub score_z: Option<usize>,
    pub candidate_count: usize,
    /// How the candidates are ordered.
    pub ranking: String,
    pub candidates: Vec<Candidate>,
}

/// Whether the soft rerank is on: a soft limit above the hard cutoff.
pub open spec fn soft_active(soft_to: Option<usize>, hard_cutoff: int) -> bool {
    soft_to matches Some(s) && s > hard_cutoff
}

/// The candidate for corridor index `m`, before ranking.
pub open spec fn spec_candidate(
    m: int,
    mode: Option<FinderMode>,
    hard_cutoff: int,
    soft_to: Option<usize>,
    score_z: Option<usize>,
    primes: Seq<usize>,
) -> Candidate {
    let n = 6 * m - 1;
    let extra = if soft_active(soft_to, hard_cutoff) {
        first_blocker_from(n, primes, hard_cutoff, soft_to->0 as int, 0)
    } else {
        None
    };
    Candidate {
        n: n as usize,
        pair_right: (n + 2) as usize,
        mode,
        hard_cutoff: hard_cutoff as usize,
        soft_to,
        score_z,
        extra_blocker: extra,
        rank_value: if soft_active(soft_to, hard_cutoff) {
            Some(
                match extra {
                    Some(b) => b,
                    None => (soft_to->0 + 1) as usize,
                },
            )
        } else {
            None
        },
        rank: 0,
    }
}

/// The candidates for the corridor indices `1 <= m < upto` left in the mask, ascending.
pub open spec fn candidates_below(
    alive: Seq<bool>,
    upto: int,
    mode: Option<FinderMode>,
    hard_cutoff: int,
    soft_to: Option<usize>,
    score_z: Option<usize>,
    primes: Seq<usize>,
) -> Seq<Candidate>
    decreases upto,
{
    if upto <= 1 {
        seq![]
    } else {
        let prev = candidates_below(alive, upto - 1, mode, hard_cutoff, soft_to, score_z, primes);
        if alive[upto - 2] {
            prev.push(spec_candidate(upto - 1, mode, hard_cutoff, soft_to, score_z, primes))
        } else {
            prev
        }
    }
}

/// The candidates left in the mask, ascending by `n`, with their soft blockers.
pub fn collect_candidates(
    alive: &Vec<bool>,
    mode: Option<FinderMode>,
    hard_cutoff: usize,
    soft_to: Option<usize>,
    score_z: Option<usize>,
    primes: &Vec<usize>,
) -> (candidates: Vec<Candidate>)
    requires
        6 * alive@.len() + 1 <= usize::MAX,
        soft_to matches Some(s) ==> s + 1 <= usize::MAX,
    ensures
        candidates@ == candidates_below(
            alive@,
            alive@.len() + 1 as int,
            mode,
            hard_cutoff as int,
            soft_to,
            score_z,
            primes@,
        ),
{
    let mut candidates: Vec<Candidate> = Vec::new();
    let mut idx: usize = 0;
    while idx < alive.len()
        invariant
            idx <= alive@.len(),
            6 * alive@.len() + 1 <= usize::MAX,
            soft_to matches Some(s) ==> s + 1 <= usize::MAX,
            candidates@ == candidates_below(
                alive@,
                idx + 1 as int,
                mode,
                hard_cutoff as int,
                soft_to,
                score_z,
                primes@,
            ),
        decreases alive@.len() - idx,
    {
        if alive[idx] {
            let m = idx + 1;
            let n = 6 * m - 1;
            let extra_blocker = match soft_to {
                Some(soft_limit) => {
                    if soft_limit > hard_cutoff {
                        first_pair_blocker(n, primes.as_slice(), hard_cutoff, soft_limit)
                    } else {
                        None
                    }
                },
                None => None,
            };
            let rank_value = match soft_to {
                Some(soft_limit) => {
                    if soft_limit > hard_cutoff {
                        Some(
                            match extra_blocker {
                                Some(b) => b,
                                None => soft_limit + 1,
                            },
                        )
                    } else {
                        None
                    }
                },
                None => None,
            };
            candidates.push(
                Candidate {
                    n,
                    pair_right: n + 2,
                    mode,
                    hard_cutoff,
                    soft_to,
                    score_z,
                    extra_blocker,
                    rank_value,
                    rank: 0,
                },
            );
        }
        idx += 1;
    }
    candidates
}

/// Every prime from 5 on is coprime to 6.
pub proof fn lemma_prime_coprime_six(p: int)
    requires
        is_prime(p),
        p >= 5,
    ensures
        spec_gcd(6, p) == 1,
{
    assert(p % 2 != 0);
    assert(p % 3 != 0);
    lemma_fundamental_div_mod(p, 6);
    let r = p % 6;
    assert(r == 1 || r == 5) by {
        let q = p / 6;
        if r == 0 || r == 2 || r == 4 {
            assert(p == 2 * (3 * q + r / 2));
            lemma_mod_multiples_basic(3 * q + r / 2, 2);
            lemma_mul_is_commutative(2, 3 * q + r / 2);
        }
        if r == 3 {
            assert(p == 3 * (2 * q + 1));
            lemma_mod_multiples_basic(2 * q + 1, 3);
            lemma_mul_is_commutative(3, 2 * q + 1);
        }
    }
    if p == 5 {
        assert(spec_gcd(6, 5) == spec_gcd(5, 1));
        assert(spec_gcd(5, 1) == spec_gcd(1, 0));
    } else {
        lemma_small_mod(6, p as nat);
        assert(spec_gcd(6, p) == spec_gcd(p, 6));
        assert(spec_gcd(p, 6) == spec_gcd(6, r));
        if r == 1 {
            assert(spec_gcd(6, 1) == spec_gcd(1, 0));
        } else {
            assert(spec_gcd(6, 5) == spec_gcd(5, 1));
            assert(spec_gcd(5, 1) == spec_gcd(1, 0));
        }
    }
}

/// The mask keeps corridor index `m`.
pub open spec fn mask_keeps(alive: Seq<bool>, m: int) -> bool {
    alive[m - 1]
}

/// `6m - 1` and `6m + 1` are both prime.
pub open spec fn twin_at(m: int) -> bool {
    is_prime(6 * m - 1) && is_prime(6 * m + 1)
}

/// The least divisor of `x` from `d` on (`x` itself when none is smaller).
pub open spec fn least_divisor_from(x: int, d: int) -> int
    decreases x - d,
{
    if d >= x {
        x
    } else if x % d == 0 {
        d
    } else {
        least_divisor_from(x, d + 1)
    }
}

proof fn lemma_least_divisor_from(x: int, d: int)
    requires
        2 <= d <= x,
        forall|e: int| 2 <= e < d ==> #[trigger] (x % e) != 0,
    ensures
        ({
            let l = least_divisor_from(x, d);
            &&& d <= l <= x
            &&& x % l == 0
            &&& forall|e: int| 2 <= e < l ==> #[trigger] (x % e) != 0
        }),
    decreases x - d,
{
    if d >= x {
        lemma_mod_self_0(x);
    } else if x % d != 0 {
        lemma_least_divisor_from(x, d + 1);
    }
}

/// A number that is at least 2 and not prime has a prime factor `d` with `d * d <= x`.
pub proof fn lemma_small_prime_factor(x: int)
    requires
        x >= 2,
        !is_prime(x),
    ensures
        ({
            let d = least_divisor_from(x, 2);
            &&& is_prime(d)
            &&& x % d == 0
            &&& d * d <= x
            &&& d < x
        }),
{
    lemma_least_divisor_from(x, 2);
    let d = least_divisor_from(x, 2);
    assert(d < x) by {
        if d == x {
            assert(is_prime(x));
        }
    }
    assert(is_prime(d)) by {
        assert forall|e: int| 2 <= e < d implies #[trigger] (d % e) != 0 by {
            if d % e == 0 {
                lemma_fundamental_div_mod(d, e);
                lemma_fundamental_div_mod(x, d);
                let a = d / e;
                let b = x / d;
                assert(x == e * (a * b)) by (nonlinear_arith)
                    requires d == e * a, x == d * b;
                lemma_mod_multiples_basic(a * b, e);
                lemma_mul_is_commutative(e, a * b);
            }
        }
    }
    lemma_fundamental_div_mod(x, d);
    let f = x / d;
    assert(f >= 2) by (nonlinear_arith)
        requires x == d * f, d < x, d >= 2;
    assert(x % f == 0) by {
        lemma_mul_is_commutative(d, f);
        lemma_mod_multiples_basic(d, f);
    }
    assert(f < x) by (nonlinear_arith)
        requires x == d * f, d >= 2, f >= 2;
    assert(d <= f);
    assert(d * d <= x) by (nonlinear_arith)
        requires x == d * f, d <= f, d >= 0;
}

proof fn lemma_prime_divisor_is_itself(q: int, p: int)
    requires
        is_prime(q),
        p >= 2,
        q % p == 0,
    ensures
        p == q,
{
    if p > q {
        lemma_small_mod(q as nat, p as nat);
    }
}

proof fn lemma_corridor_residues(m: int)
    requires
        m >= 1,
    ensures
        (6 * m - 1) % 2 == 1,
        (6 * m - 1) % 3 == 2,
        (6 * m + 1) % 2 == 1,
        (6 * m + 1) % 3 == 1,
{
    lemma_fundamental_div_mod_converse(6 * m - 1, 2, 3 * m - 1, 1);
    lemma_fundamental_div_mod_converse(6 * m - 1, 3, 2 * m - 1, 2);
    lemma_fundamental_div_mod_converse(6 * m + 1, 2, 3 * m, 1);
    lemma_fundamental_div_mod_converse(6 * m + 1, 3, 2 * m, 1);
}

/// With the cutoff at the largest prime up to `isqrt(limit_n + 2)` and a list
/// holding exactly the primes that matter, the mask keeps `m` exactly when
/// `6m - 1` and `6m + 1` are both prime.
pub proof fn lemma_exact_range_mask(
    limit_n: int,
    s: int,
    c: int,
    primes: Seq<usize>,
    m: int,
)
    requires
        is_isqrt(s, limit_n + 2),
        is_largest_prime_leq(c, s),
        c <= usize::MAX,
        forall|p: int| 5 <= p <= c && is_prime(p) ==> #[trigger] primes.contains(p as usize),
        forall|i: int| 0 <= i < primes.len() && 5 <= primes[i] <= c ==> is_prime(#[trigger] primes[i] as int),
        1 <= m,
        6 * m + 1 <= limit_n,
    ensures
        (!exists|i: int| 0 <= i < primes.len() && #[trigger] mask_blocks(m, primes[i] as int, c)) <==> (
        is_prime(6 * m - 1) && is_prime(6 * m + 1)),
{
    lemma_corridor_residues(m);
    if is_prime(6 * m - 1) && is_prime(6 * m + 1) {
        assert forall|i: int| 0 <= i < primes.len() implies !#[trigger] mask_blocks(m, primes[i] as int, c) by {
            let p = primes[i] as int;
            if 5 <= p <= c {
                if (6 * m - 1) % p == 0 {
                    lemma_prime_divisor_is_itself(6 * m - 1, p);
                }
                if (6 * m + 1) % p == 0 {
                    lemma_prime_divisor_is_itself(6 * m + 1, p);
                }
            }
        }
    } else {
        let x = if !is_prime(6 * m - 1) { 6 * m - 1 } else { 6 * m + 1 };
        lemma_small_prime_factor(x);
        let d = least_divisor_from(x, 2);
        assert(d != 2 && d != 3);
        if d == 4 {
            assert(4int % 2 == 0);
        }
        assert(d >= 5);
        assert(d <= s) by (nonlinear_arith)
            requires d * d <= x, x <= limit_n + 1, limit_n + 2 < (s + 1) * (s + 1), d >= 0, s >= 0;
        assert(d <= c) by {
            if d > c {
                assert(!is_prime(d));
            }
        }
        assert(primes.contains(d as usize));
        let i = choose|i: int| 0 <= i < primes.len() && primes[i] == d as usize;
        assert(mask_blocks(m, primes[i] as int, c));
    }
}

/// The marked entries of a primality table are exactly the primes.
pub proof fn lemma_marked_below_primes(sieve: Seq<bool>, k: int)
    requires
        k <= sieve.len(),
        k <= usize::MAX,
        forall|m: int| 0 <= m < sieve.len() ==> #[trigger] sieve[m] == is_prime(m),
    ensures
        forall|p: int| 0 <= p < k && is_prime(p) ==> #[trigger] marked_below(sieve, k).contains(p as usize),
        forall|i: int| 0 <= i < marked_below(sieve, k).len() ==> is_prime(#[trigger] marked_below(sieve, k)[i] as int)
            && marked_below(sieve, k)[i] < k,
    decreases k,
{
    if k > 2 {
        lemma_marked_below_primes(sieve, k - 1);
        let prev = marked_below(sieve, k - 1);
        if sieve[k - 1] {
            let cur = marked_below(sieve, k);
            assert(cur[prev.len() as int] == (k - 1) as usize);
            assert forall|i: int| 0 <= i < cur.len() implies is_prime(#[trigger] cur[i] as int) && cur[i] < k by {
                if i < prev.len() {
                    assert(cur[i] == prev[i]);
                }
            }
            assert forall|p: int| 0 <= p < k && is_prime(p) implies #[trigger] cur.contains(p as usize) by {
                if p < k - 1 {
                    assert(prev.contains(p as usize));
                    let j = choose|j: int| 0 <= j < prev.len() && prev[j] == p as usize;
                    assert(cur[j] == p as usize);
                }
            }
        }
    }
}

/// The primes from 2 to `limit`, ascending.
pub open spec fn prime_list(limit: int) -> Seq<usize> {
    marked_below(Seq::new((limit + 1) as nat, |m: int| is_prime(m)), limit + 1)
}

/// The largest prime a finder run needs: the cutoff, the soft limit and the score depth.
pub open spec fn primes_needed(hard_cutoff: int, soft_to: Option<usize>, score_z: Option<usize>) -> int {
    let soft = match soft_to {
        Some(v) => v as int,
        None => hard_cutoff,
    };
    let z = match score_z {
        Some(v) => v as int,
        None => hard_cutoff,
    };
    let a = if hard_cutoff >= soft { hard_cutoff } else { soft };
    if a >= z { a } else { z }
}

/// The corridor candidates up to `limit_n`: the cutoff from the mode (or the
/// custom one), the score depth when scoring, the primes up to the largest
/// limit needed, and the candidates the hard mask keeps, ascending, with
/// their soft blockers. In exact-range mode the candidates are exactly the
/// twin prime pairs `(6m - 1, 6m + 1)` with `6m + 1 <= limit_n`.
pub fn build_candidates(
    limit_n: usize,
    mode: FinderMode,
    soft_to: Option<usize>,
    custom_cutoff: Option<usize>,
    score: bool,
    score_z_arg: Option<usize>,
) -> (r: (FinderResult, Vec<usize>))
    requires
        limit_n + 2 <= usize::MAX,
        custom_cutoff is None && mode == FinderMode::ExactRange ==> limit_n >= 2,
        custom_cutoff matches Some(c) ==> c < usize::MAX / 8,
        soft_to matches Some(v) ==> v < usize::MAX / 8,
        score_z_arg matches Some(v) ==> v < usize::MAX / 8,
    ensures
        ({
            let (res, primes) = r;
            let max_m = if limit_n <= 1 { 0 } else { (limit_n - 1) / 6 };
            &&& custom_cutoff matches Some(c) ==> res.hard_cutoff == c && res.mode is None
            &&& custom_cutoff is None ==> res.mode == Some(mode)
            &&& custom_cutoff is None && mode == FinderMode::Fast ==> res.hard_cutoff == 211
            &&& custom_cutoff is None && mode == FinderMode::HighPrecision ==> res.hard_cutoff == 503
            &&& res.limit_n == limit_n
            &&& res.soft_to == soft_to
            &&& (score <==> res.score_z is Some)
            &&& primes@ == prime_list(primes_needed(res.hard_cutoff as int, soft_to, res.score_z))
            &&& res.candidate_count == res.candidates@.len()
            &&& res.ranking@ == spec_ranking_label(soft_to, res.hard_cutoff as int, res.score_z)
            &&& forall|i: int| 0 <= i < primes@.len() ==> is_prime(#[trigger] primes@[i] as int)
            &&& forall|p: int| 0 <= p <= res.hard_cutoff && is_prime(p) ==> #[trigger] primes@.contains(p as usize)
            &&& res.candidates@ == candidates_below(survivor_mask(max_m, res.hard_cutoff as int, primes@),
                max_m + 1, res.mode, res.hard_cutoff as int, soft_to, res.score_z, primes@)
            &&& custom_cutoff is None && mode == FinderMode::ExactRange ==> forall|m: int|
                1 <= m <= max_m ==> (exists|i: int| 0 <= i < res.candidates@.len()
                    && #[trigger] res.candidates@[i].n == 6 * m - 1) == #[trigger] twin_at(m)
            &&& custom_cutoff is None && mode == FinderMode::ExactRange ==> exists|s: int|
                #[trigger] is_isqrt(s, limit_n + 2) && is_largest_prime_leq(res.hard_cutoff as int, s)
        }),
{
    let (hard_cutoff, resolved_mode) = resolve_cutoff(limit_n, mode, custom_cutoff);
    proof {
        assert(0xffff_ffff <= usize::MAX);
        if custom_cutoff is None && mode == FinderMode::ExactRange {
            let s = choose|s: int| #[trigger] is_isqrt(s, limit_n + 2) && is_largest_prime_leq(hard_cutoff as int, s);
            assert(s < usize::MAX / 8) by (nonlinear_arith)
                requires s * s <= limit_n + 2, limit_n + 2 <= usize::MAX, usize::MAX >= 0xffff_ffff, s >= 0;
        }
        assert(hard_cutoff < usize::MAX / 8);
    }
    let actual_score_z = if score {
        Some(resolve_score_z(hard_cutoff, score_z_arg, limit_n))
    } else {
        None
    };
    proof {
        if let Some(z) = actual_score_z {
            if score_z_arg is None && hard_cutoff != 211 && hard_cutoff != 503 {
                let doubled = if 2 * hard_cutoff <= usize::MAX { 2 * hard_cutoff } else { usize::MAX as int };
                if doubled > hard_cutoff {
                    let s = choose|s: int| #[trigger] is_isqrt(s, limit_n + 2) && z == (if doubled <= s { doubled } else { s });
                    assert(s < usize::MAX / 4) by (nonlinear_arith)
                        requires s * s <= limit_n + 2, limit_n + 2 <= usize::MAX, usize::MAX >= 0xffff_ffff, s >= 0;
                }
            }
            assert(z < usize::MAX / 4);
        }
    }
    let max_m = max_candidate_m(limit_n);
    let soft_or_hard = match soft_to {
        Some(v) => v,
        None => hard_cutoff,
    };
    let z_or_hard = match actual_score_z {
        Some(v) => v,
        None => hard_cutoff,
    };
    let a = if hard_cutoff >= soft_or_hard {
        hard_cutoff
    } else {
        soft_or_hard
    };
    let max_prime_needed = if a >= z_or_hard {
        a
    } else {
        z_or_hard
    };
    let sieve = sieve_bool(max_prime_needed);
    let primes = prime_list_from_sieve(sieve.as_slice(), max_prime_needed);
    proof {
        lemma_marked_below_primes(sieve@, max_prime_needed + 1);
        assert forall|i: int| 0 <= i < primes@.len() implies #[trigger] mask_prime_ok(
            primes@[i] as int,
            hard_cutoff as int,
            max_m as int,
        ) by {
            let p = primes@[i] as int;
            if 5 <= p <= hard_cutoff {
                lemma_prime_coprime_six(p);
                assert(usize::MAX / 8 <= i64::MAX / 2);
            }
        }
    }
    let alive = build_survivor_mask(max_m, hard_cutoff, primes.as_slice());
    let candidates = collect_candidates(&alive, resolved_mode, hard_cutoff, soft_to, actual_score_z, &primes);
    let count = candidates.len();
    let ranking = ranking_label(soft_to, hard_cutoff, actual_score_z);
    proof {
        if limit_n > 1 {
            lemma_fundamental_div_mod(limit_n - 1, 6);
        }
        lemma_candidates_below_ns(alive@, max_m + 1, resolved_mode, hard_cutoff as int, soft_to, actual_score_z, primes@);
        if custom_cutoff is None && mode == FinderMode::ExactRange {
            let s = choose|s: int| #[trigger] is_isqrt(s, limit_n + 2) && is_largest_prime_leq(hard_cutoff as int, s);
            assert forall|m: int| 1 <= m <= max_m implies (exists|i: int| 0 <= i < candidates@.len()
                && #[trigger] candidates@[i].n == 6 * m - 1) == #[trigger] twin_at(m) by {
                assert(6 * max_m + 1 <= limit_n);
                lemma_exact_range_mask(limit_n as int, s, hard_cutoff as int, primes@, m);
                assert(mask_keeps(alive@, m) == alive@[m - 1]);
            }
        }
        assert(candidates@ == candidates_below(alive@, max_m + 1, resolved_mode, hard_cutoff as int,
            soft_to, actual_score_z, primes@));
        assert(alive@ =~= survivor_mask(max_m as int, hard_cutoff as int, primes@));
        assert(sieve@ =~= Seq::new((max_prime_needed + 1) as nat, |m: int| is_prime(m)));
        assert(max_prime_needed == primes_needed(hard_cutoff as int, soft_to, actual_score_z));
    }
    (
        FinderResult {
            limit_n,
            mode: resolved_mode,
            hard_cutoff,
            soft_to,
            score_z: actual_score_z,
            candidate_count: count,
            ranking,
            candidates,
        },
        primes,
    )
}

/// The candidate for corridor index `m` is listed exactly when the mask keeps
/// `m`, and every listed candidate is the one for its own index.
pub proof fn lemma_candidates_below_ns(
    alive: Seq<bool>,
    upto: int,
    mode: Option<FinderMode>,
    hard_cutoff: int,
    soft_to: Option<usize>,
    score_z: Option<usize>,
    primes: Seq<usize>,
)
    requires
        upto <= alive.len() + 1,
        6 * upto <= usize::MAX + 6,
    ensures
        forall|m: int|
            1 <= m < upto ==> (exists|i: int|
                0 <= i < candidates_below(alive, upto, mode, hard_cutoff, soft_to, score_z, primes).len()
                    && #[trigger] candidates_below(alive, upto, mode, hard_cutoff, soft_to, score_z, primes)[i].n
                    == 6 * m - 1) == #[trigger] mask_keeps(alive, m),
        forall|i: int|
            0 <= i < candidates_below(alive, upto, mode, hard_cutoff, soft_to, score_z, primes).len() ==> {
                let c = #[trigger] candidates_below(alive, upto, mode, hard_cutoff, soft_to, score_z, primes)[i];
                &&& 1 <= (c.n + 1) / 6 < upto
                &&& c.n + 1 == 6 * ((c.n + 1) / 6)
                &&& alive[(c.n + 1) / 6 - 1]
                &&& c == spec_candidate((c.n + 1) / 6, mode, hard_cutoff, soft_to, score_z, primes)
            },
    decreases upto,
{
    if upto > 1 {
        let prev = candidates_below(alive, upto - 1, mode, hard_cutoff, soft_to, score_z, primes);
        let cur = candidates_below(alive, upto, mode, hard_cutoff, soft_to, score_z, primes);
        lemma_candidates_below_ns(alive, upto - 1, mode, hard_cutoff, soft_to, score_z, primes);
        let last = upto - 1;
        assert forall|i: int| 0 <= i < cur.len() implies {
            let c = #[trigger] cur[i];
            &&& 1 <= (c.n + 1) / 6 < upto
            &&& c.n + 1 == 6 * ((c.n + 1) / 6)
            &&& alive[(c.n + 1) / 6 - 1]
            &&& c == spec_candidate((c.n + 1) / 6, mode, hard_cutoff, soft_to, score_z, primes)
        } by {
            if i < prev.len() {
                assert(cur[i] == prev[i]);
            } else {
                assert(cur[i] == spec_candidate(last, mode, hard_cutoff, soft_to, score_z, primes));
                assert(cur[i].n == 6 * last - 1);
                lemma_fundamental_div_mod_converse(6 * last, 6, last, 0);
            }
        }
        assert forall|m: int| 1 <= m < upto implies (exists|i: int| 0 <= i < cur.len()
            && #[trigger] cur[i].n == 6 * m - 1) == #[trigger] mask_keeps(alive, m) by {
            if m < last {
                assert(mask_keeps(alive, m) == (exists|i: int| 0 <= i < prev.len()
                    && #[trigger] prev[i].n == 6 * m - 1));
            }
            if exists|i: int| 0 <= i < cur.len() && #[trigger] cur[i].n == 6 * m - 1 {
                let i = choose|i: int| 0 <= i < cur.len() && #[trigger] cur[i].n == 6 * m - 1;
                let c = cur[i];
                lemma_fundamental_div_mod_converse(6 * m, 6, m, 0);
            }
            if alive[m - 1] {
                if m < last {
                    let i = choose|i: int| 0 <= i < prev.len() && #[trigger] prev[i].n == 6 * m - 1;
                    assert(cur[i] == prev[i]);
                } else {
                    assert(cur[prev.len() as int].n == 6 * m - 1);
                }
            }
        }
    }
}

/// The candidates of `candidates_below` come in strictly ascending order of `n`.
pub proof fn lemma_candidates_ascending(
    alive: Seq<bool>,
    upto: int,
    mode: Option<FinderMode>,
    hard_cutoff: int,
    soft_to: Option<usize>,
    score_z: Option<usize>,
    primes: Seq<usize>,
)
    requires
        upto <= alive.len() + 1,
        6 * upto <= usize::MAX + 6,
    ensures
        ascending_n(candidates_below(alive, upto, mode, hard_cutoff, soft_to, score_z, primes)),
    decreases upto,
{
    if upto > 1 {
        lemma_candidates_ascending(alive, upto - 1, mode, hard_cutoff, soft_to, score_z, primes);
        lemma_candidates_below_ns(alive, upto - 1, mode, hard_cutoff, soft_to, score_z, primes);
        let prev = candidates_below(alive, upto - 1, mode, hard_cutoff, soft_to, score_z, primes);
        let cur = candidates_below(alive, upto, mode, hard_cutoff, soft_to, score_z, primes);
        if alive[upto - 2] {
            let last = spec_candidate(upto - 1, mode, hard_cutoff, soft_to, score_z, primes);
            assert(cur == prev.push(last));
            assert forall|i: int, j: int| 0 <= i < j < cur.len() implies #[trigger] cur[i].n < #[trigger] cur[j].n by {
                if j == prev.len() {
                    let c = prev[i];
                    assert(1 <= (c.n + 1) / 6 < upto - 1);
                    assert(c.n + 1 == 6 * ((c.n + 1) / 6));
                    assert(cur[j].n == 6 * (upto - 1) - 1);
                } else {
                    assert(cur[i] == prev[i] && cur[j] == prev[j]);
                }
            }
        }
    }
}

/// A twin prime pair is never ruled out by a mask prime, whatever the cutoff:
/// the mask keeps every twin pair.
pub proof fn lemma_twin_survives_mask(m: int, hard_cutoff: int, primes: Seq<usize>)
    requires
        m >= 1,
        twin_at(m),
    ensures
        forall|i: int| 0 <= i < primes.len() ==> !#[trigger] mask_blocks(m, primes[i] as int, hard_cutoff),
{
    assert forall|i: int| 0 <= i < primes.len() implies !#[trigger] mask_blocks(m, primes[i] as int, hard_cutoff) by {
        let p = primes[i] as int;
        if 5 <= p {
            if (6 * m - 1) % p == 0 {
                lemma_prime_divisor_is_itself(6 * m - 1, p);
            }
            if (6 * m + 1) % p == 0 {
                lemma_prime_divisor_is_itself(6 * m + 1, p);
            }
        }
    }
}

proof fn lemma_marked_below_agree(s1: Seq<bool>, s2: Seq<bool>, m: int)
    requires
        m <= s1.len(),
        m <= s2.len(),
        forall|j: int| 0 <= j < m ==> s1[j] == s2[j],
    ensures
        marked_below(s1, m) == marked_below(s2, m),
    decreases m,
{
    if m > 2 {
        lemma_marked_below_agree(s1, s2, m - 1);
    }
}

proof fn lemma_marked_below_grows(s: Seq<bool>, m1: int, m2: int)
    requires
        0 <= m1 <= m2,
        m2 <= usize::MAX,
    ensures
        marked_below(s, m1).len() <= marked_below(s, m2).len(),
        forall|i: int| 0 <= i < marked_below(s, m1).len() ==> #[trigger] marked_below(s, m2)[i] == marked_below(s, m1)[i],
        forall|i: int|
            marked_below(s, m1).len() <= i < marked_below(s, m2).len() ==> #[trigger] marked_below(s, m2)[i] >= m1,
    decreases m2,
{
    if m2 > m1 {
        lemma_marked_below_grows(s, m1, m2 - 1);
        if m2 > 2 && s[m2 - 1] {
            let prev = marked_below(s, m2 - 1);
            assert(marked_below(s, m2)[prev.len() as int] == (m2 - 1) as usize);
            assert forall|i: int| 0 <= i < prev.len() implies #[trigger] marked_below(s, m2)[i] == prev[i] by {}
        }
    }
}

/// The primes up to `a` come first among the primes up to `b` (`a <= b`),
/// and every prime after them is above `a`.
pub proof fn lemma_prime_list_prefix(a: int, b: int)
    requires
        0 <= a <= b,
        b + 1 <= usize::MAX,
    ensures
        prime_list(a).len() <= prime_list(b).len(),
        forall|i: int| 0 <= i < prime_list(a).len() ==> #[trigger] prime_list(b)[i] == prime_list(a)[i],
        forall|i: int| prime_list(a).len() <= i < prime_list(b).len() ==> #[trigger] prime_list(b)[i] > a,
{
    let sa = Seq::new((a + 1) as nat, |m: int| is_prime(m));
    let sb = Seq::new((b + 1) as nat, |m: int| is_prime(m));
    lemma_marked_below_agree(sa, sb, a + 1);
    lemma_marked_below_grows(sb, a + 1, b + 1);
}

proof fn lemma_blocker_none_above(n: int, primes: Seq<usize>, low_exclusive: int, high_inclusive: int, i: int)
    requires
        0 <= i,
        forall|j: int| i <= j < primes.len() ==> primes[j] > high_inclusive,
    ensures
        first_blocker_from(n, primes, low_exclusive, high_inclusive, i) is None,
    decreases primes.len() - i,
{
    if i < primes.len() {
        lemma_blocker_none_above(n, primes, low_exclusive, high_inclusive, i + 1);
    }
}

proof fn lemma_blocker_prefix(
    n: int,
    p1: Seq<usize>,
    p2: Seq<usize>,
    low_exclusive: int,
    high_inclusive: int,
    i: int,
)
    requires
        0 <= i,
        p1.len() <= p2.len(),
        forall|j: int| 0 <= j < p1.len() ==> p2[j] == p1[j],
        forall|j: int| p1.len() <= j < p2.len() ==> p2[j] > high_inclusive,
    ensures
        first_blocker_from(n, p1, low_exclusive, high_inclusive, i) == first_blocker_from(
            n,
            p2,
            low_exclusive,
            high_inclusive,
            i,
        ),
    decreases p2.len() - i,
{
    if i >= p1.len() {
        lemma_blocker_none_above(n, p2, low_exclusive, high_inclusive, i);
    } else {
        lemma_blocker_prefix(n, p1, p2, low_exclusive, high_inclusive, i + 1);
    }
}

/// Two prime lists that agree on the primes up to `bound` give the same
/// mask at any cutoff up to `bound`.
proof fn lemma_mask_same_primes(max_m: int, hard_cutoff: int, p1: Seq<usize>, p2: Seq<usize>)
    requires
        p1.len() <= p2.len(),
        forall|j: int| 0 <= j < p1.len() ==> p2[j] == p1[j],
        forall|j: int| p1.len() <= j < p2.len() ==> p2[j] > hard_cutoff,
    ensures
        survivor_mask(max_m, hard_cutoff, p1) == survivor_mask(max_m, hard_cutoff, p2),
{
    assert forall|j: int| 0 <= j < max_m implies survivor_mask(max_m, hard_cutoff, p1)[j]
        == survivor_mask(max_m, hard_cutoff, p2)[j] by {
        if exists|i: int| 0 <= i < p1.len() && #[trigger] mask_blocks(j + 1, p1[i] as int, hard_cutoff) {
            let i = choose|i: int| 0 <= i < p1.len() && #[trigger] mask_blocks(j + 1, p1[i] as int, hard_cutoff);
            assert(mask_blocks(j + 1, p2[i] as int, hard_cutoff));
        }
        if exists|i: int| 0 <= i < p2.len() && #[trigger] mask_blocks(j + 1, p2[i] as int, hard_cutoff) {
            let i = choose|i: int| 0 <= i < p2.len() && #[trigger] mask_blocks(j + 1, p2[i] as int, hard_cutoff);
            assert(i < p1.len());
            assert(mask_blocks(j + 1, p1[i] as int, hard_cutoff));
        }
    }
    assert(survivor_mask(max_m, hard_cutoff, p1) =~= survivor_mask(max_m, hard_cutoff, p2));
}

proof fn lemma_candidates_same_primes(
    alive: Seq<bool>,
    upto: int,
    mode: Option<FinderMode>,
    hard_cutoff: int,
    soft_to: Option<usize>,
    z1: Option<usize>,
    z2: Option<usize>,
    p1: Seq<usize>,
    p2: Seq<usize>,
)
    requires
        p1.len() <= p2.len(),
        forall|j: int| 0 <= j < p1.len() ==> p2[j] == p1[j],
        soft_active(soft_to, hard_cutoff) ==> forall|j: int| p1.len() <= j < p2.len() ==> p2[j] > soft_to->0,
    ensures
        candidates_below(alive, upto, mode, hard_cutoff, soft_to, z1, p1).len() == candidates_below(
            alive,
            upto,
            mode,
            hard_cutoff,
            soft_to,
            z2,
            p2,
        ).len(),
        forall|i: int|
            0 <= i < candidates_below(alive, upto, mode, hard_cutoff, soft_to, z1, p1).len() ==> {
                let c1 = #[trigger] candidates_below(alive, upto, mode, hard_cutoff, soft_to, z1, p1)[i];
                let c2 = candidates_below(alive, upto, mode, hard_cutoff, soft_to, z2, p2)[i];
                &&& c1.n == c2.n
                &&& c1.pair_right == c2.pair_right
                &&& c1.extra_blocker == c2.extra_blocker
                &&& c1.rank_value == c2.rank_value
            },
    decreases upto,
{
    if upto > 1 {
        lemma_candidates_same_primes(alive, upto - 1, mode, hard_cutoff, soft_to, z1, z2, p1, p2);
        let a = candidates_below(alive, upto, mode, hard_cutoff, soft_to, z1, p1);
        let b = candidates_below(alive, upto, mode, hard_cutoff, soft_to, z2, p2);
        let pa = candidates_below(alive, upto - 1, mode, hard_cutoff, soft_to, z1, p1);
        let pb = candidates_below(alive, upto - 1, mode, hard_cutoff, soft_to, z2, p2);
        if soft_active(soft_to, hard_cutoff) {
            lemma_blocker_prefix(6 * (upto - 1) - 1, p1, p2, hard_cutoff, soft_to->0 as int, 0);
        }
        assert forall|i: int| 0 <= i < a.len() implies {
            let c1 = #[trigger] a[i];
            let c2 = b[i];
            &&& c1.n == c2.n
            &&& c1.pair_right == c2.pair_right
            &&& c1.extra_blocker == c2.extra_blocker
            &&& c1.rank_value == c2.rank_value
        } by {
            if i < pa.len() {
                assert(a[i] == pa[i]);
                assert(b[i] == pb[i]);
            }
        }
    }
}

proof fn lemma_runs_agree(
    max_m: int,
    mode: Option<FinderMode>,
    hard_cutoff: int,
    soft_to: Option<usize>,
    z1: Option<usize>,
    z2: Option<usize>,
)
    requires
        0 <= hard_cutoff,
        primes_needed(hard_cutoff, soft_to, z1) <= primes_needed(hard_cutoff, soft_to, z2),
        primes_needed(hard_cutoff, soft_to, z2) + 1 <= usize::MAX,
    ensures
        ({
            let p1 = prime_list(primes_needed(hard_cutoff, soft_to, z1));
            let p2 = prime_list(primes_needed(hard_cutoff, soft_to, z2));
            let c1 = candidates_below(survivor_mask(max_m, hard_cutoff, p1), max_m + 1, mode, hard_cutoff, soft_to, z1, p1);
            let c2 = candidates_below(survivor_mask(max_m, hard_cutoff, p2), max_m + 1, mode, hard_cutoff, soft_to, z2, p2);
            &&& survivor_mask(max_m, hard_cutoff, p1) == survivor_mask(max_m, hard_cutoff, p2)
            &&& c1.len() == c2.len()
            &&& forall|i: int|
                0 <= i < c1.len() ==> {
                    &&& (#[trigger] c1[i]).n == c2[i].n
                    &&& c1[i].pair_right == c2[i].pair_right
                    &&& c1[i].extra_blocker == c2[i].extra_blocker
                    &&& c1[i].rank_value == c2[i].rank_value
                }
        }),
{
    let l1 = primes_needed(hard_cutoff, soft_to, z1);
    let l2 = primes_needed(hard_cutoff, soft_to, z2);
    let p1 = prime_list(l1);
    let p2 = prime_list(l2);
    lemma_prime_list_prefix(l1, l2);
    lemma_mask_same_primes(max_m, hard_cutoff, p1, p2);
    let alive = survivor_mask(max_m, hard_cutoff, p1);
    lemma_candidates_same_primes(alive, max_m + 1, mode, hard_cutoff, soft_to, z1, z2, p1, p2);
}

/// Scoring only reorders: two finder runs with the same limit, cutoff and
/// soft limit that differ in the score depth (and so in how far their prime
/// lists reach) have the same mask and the same candidates, in the same
/// order, with the same pairs, soft blockers and soft ranks.
pub proof fn lemma_scoring_keeps_run(
    max_m: int,
    mode: Option<FinderMode>,
    hard_cutoff: int,
    soft_to: Option<usize>,
    z1: Option<usize>,
    z2: Option<usize>,
)
    requires
        0 <= hard_cutoff,
        primes_needed(hard_cutoff, soft_to, z1) + 1 <= usize::MAX,
        primes_needed(hard_cutoff, soft_to, z2) + 1 <= usize::MAX,
    ensures
        ({
            let p1 = prime_list(primes_needed(hard_cutoff, soft_to, z1));
            let p2 = prime_list(primes_needed(hard_cutoff, soft_to, z2));
            let c1 = candidates_below(survivor_mask(max_m, hard_cutoff, p1), max_m + 1, mode, hard_cutoff, soft_to, z1, p1);
            let c2 = candidates_below(survivor_mask(max_m, hard_cutoff, p2), max_m + 1, mode, hard_cutoff, soft_to, z2, p2);
            &&& survivor_mask(max_m, hard_cutoff, p1) == survivor_mask(max_m, hard_cutoff, p2)
            &&& c1.len() == c2.len()
            &&& forall|i: int|
                0 <= i < c1.len() ==> {
                    &&& (#[trigger] c1[i]).n == c2[i].n
                    &&& c1[i].pair_right == c2[i].pair_right
                    &&& c1[i].extra_blocker == c2[i].extra_blocker
                    &&& c1[i].rank_value == c2[i].rank_value
                }
        }),
{
    if primes_needed(hard_cutoff, soft_to, z1) <= primes_needed(hard_cutoff, soft_to, z2) {
        lemma_runs_agree(max_m, mode, hard_cutoff, soft_to, z1, z2);
    } else {
        lemma_runs_agree(max_m, mode, hard_cutoff, soft_to, z2, z1);
    }
}

proof fn lemma_blocker_from_meaning(n: int, primes: Seq<usize>, low_exclusive: int, high_inclusive: int, i: int)
    requires
        n >= 0,
        0 <= i <= primes.len(),
        forall|j: int| 0 <= j < primes.len() ==> #[trigger] primes[j] > 0,
        forall|a: int, b: int| 0 <= a < b < primes.len() ==> #[trigger] primes[a] < #[trigger] primes[b],
    ensures
        match first_blocker_from(n, primes, low_exclusive, high_inclusive, i) {
            Some(p) => exists|k: int|
                i <= k < primes.len() && #[trigger] primes[k] == p && low_exclusive < p <= high_inclusive && (((n
                    % (p as int) == 0 && n != p) || ((n + 2) % (p as int) == 0 && n + 2 != p))) && forall|j: int|
                    i <= j < k && low_exclusive < primes[j] ==> !(((n % (#[trigger] primes[j] as int) == 0 && n
                        != primes[j]) || ((n + 2) % (primes[j] as int) == 0 && n + 2 != primes[j]))),
            None => forall|j: int|
                i <= j < primes.len() && low_exclusive < primes[j] <= high_inclusive ==> !(((n % (
                    #[trigger] primes[j] as int) == 0 && n != primes[j]) || ((n + 2) % (primes[j] as int) == 0 && n
                    + 2 != primes[j]))),
        },
    decreases primes.len() - i,
{
    if i < primes.len() {
        lemma_blocker_from_meaning(n, primes, low_exclusive, high_inclusive, i + 1);
        let p = primes[i] as int;
        if p > high_inclusive && p > low_exclusive {
            assert forall|j: int| i <= j < primes.len() && low_exclusive < primes[j] <= high_inclusive implies !(((n
                % (#[trigger] primes[j] as int) == 0 && n != primes[j]) || ((n + 2) % (primes[j] as int) == 0 && n + 2
                != primes[j]))) by {
                if j > i {
                    assert(primes[i] < primes[j]);
                }
            }
        }
        match first_blocker_from(n, primes, low_exclusive, high_inclusive, i + 1) {
            Some(q) => {
                if p <= low_exclusive || (p <= high_inclusive && !((n % p == 0 && n != p) || ((n + 2) % p == 0
                    && n + 2 != p))) {
                    let k = choose|k: int|
                        i + 1 <= k < primes.len() && #[trigger] primes[k] == q && low_exclusive < q <= high_inclusive
                            && (((n % (q as int) == 0 && n != q) || ((n + 2) % (q as int) == 0 && n + 2 != q)))
                            && forall|j: int|
                            i + 1 <= j < k && low_exclusive < primes[j] ==> !(((n % (#[trigger] primes[j] as int)
                                == 0 && n != primes[j]) || ((n + 2) % (primes[j] as int) == 0 && n + 2
                                != primes[j])));
                    assert(primes[k] == q);
                }
            },
            None => {},
        }
    }
}

/// What the soft blocker is: in an ascending list of primes, a reported
/// blocker is a listed prime in `(low_exclusive, high_inclusive]` that divides
/// `n` or `n + 2` without being that number, and no listed prime between
/// `low_exclusive` and it does so; and when none is reported, no listed prime in
/// `(low_exclusive, high_inclusive]` divides `n` or `n + 2` without being it.
pub proof fn lemma_first_blocker_meaning(n: int, primes: Seq<usize>, low_exclusive: int, high_inclusive: int)
    requires
        n >= 0,
        forall|j: int| 0 <= j < primes.len() ==> #[trigger] primes[j] > 0,
        forall|a: int, b: int| 0 <= a < b < primes.len() ==> #[trigger] primes[a] < #[trigger] primes[b],
    ensures
        match first_blocker_from(n, primes, low_exclusive, high_inclusive, 0) {
            Some(p) => exists|k: int|
                0 <= k < primes.len() && #[trigger] primes[k] == p && low_exclusive < p <= high_inclusive && (((n
                    % (p as int) == 0 && n != p) || ((n + 2) % (p as int) == 0 && n + 2 != p))) && forall|j: int|
                    0 <= j < k && low_exclusive < primes[j] ==> !(((n % (#[trigger] primes[j] as int) == 0 && n
                        != primes[j]) || ((n + 2) % (primes[j] as int) == 0 && n + 2 != primes[j]))),
            None => forall|j: int|
                0 <= j < primes.len() && low_exclusive < primes[j] <= high_inclusive ==> !(((n % (
                    #[trigger] primes[j] as int) == 0 && n != primes[j]) || ((n + 2) % (primes[j] as int) == 0 && n
                    + 2 != primes[j]))),
        },
{
    lemma_blocker_from_meaning(n, primes, low_exclusive, high_inclusive, 0);
}

proof fn lemma_prime_has_no_proper_divisor(x: int, p: int)
    requires
        is_prime(x),
        p >= 2,
        p != x,
    ensures
        x % p != 0,
{
    if p > x {
        lemma_small_mod(x as nat, p as nat);
    } else {
        assert(x % p != 0);
    }
}

/// A twin prime pair has no soft blocker: when `n` and `n + 2` are both prime,
/// no list of primes (each at least 2) reports a blocker, whatever the range.
pub proof fn lemma_twin_pair_has_no_blocker(n: int, primes: Seq<usize>, low_exclusive: int, high_inclusive: int, i: int)
    requires
        is_prime(n),
        is_prime(n + 2),
        0 <= i,
        forall|j: int| 0 <= j < primes.len() ==> #[trigger] primes[j] >= 2,
    ensures
        first_blocker_from(n, primes, low_exclusive, high_inclusive, i) is None,
    decreases primes.len() - i,
{
    if i < primes.len() {
        let p = primes[i] as int;
        if p != n {
            lemma_prime_has_no_proper_divisor(n, p);
        }
        if p != n + 2 {
            lemma_prime_has_no_proper_divisor(n + 2, p);
        }
        lemma_twin_pair_has_no_blocker(n, primes, low_exclusive, high_inclusive, i + 1);
    }
}

} // verus!

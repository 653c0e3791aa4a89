//! Primality, Euclid's lemma, the binomial theorem and Fermat's little theorem.
use vstd::arithmetic::div_mod::*;
use vstd::arithmetic::mul::*;
use vstd::arithmetic::power::*;
use vstd::prelude::*;

verus! {

/// `n` is a prime number.
pub open spec fn is_prime(n: int) -> bool {
    &&& n >= 2
    &&& forall|d: int| 2 <= d < n ==> #[trigger] (n % d) != 0
}

/// `d` divides `n` (for a positive `d`).
pub open spec fn divides(d: int, n: int) -> bool {
    n % d == 0
}

proof fn lemma_mod_diff_zero(a: int, b: int, m: int)
    requires
        m > 0,
        a % m == 0,
        b % m == 0,
    ensures
        (a - b) % m == 0,
{
    lemma_sub_mod_noop(a, b, m);
    lemma_small_mod(0, m as nat);
}

/// Euclid's lemma for a factor below the prime.
proof fn lemma_euclid_small(p: int, a: int, b: int)
    requires
        is_prime(p),
        0 < a < p,
        b >= 0,
        (a * b) % p == 0,
    ensures
        b % p == 0,
    decreases a,
{
    if a == 1 {
        assert(a * b == b);
    } else {
        let q = p / a;
        let r = p % a;
        lemma_fundamental_div_mod(p, a);
        assert(p % a != 0);
        assert(0 < r < a);
        // r * b = p * b - q * (a * b)
        assert(r * b == p * b - q * (a * b)) by (nonlinear_arith)
            requires p == a * q + r;
        lemma_mod_multiples_basic(b, p);
        assert((p * b) % p == 0) by {
            lemma_mul_is_commutative(p, b);
        }
        lemma_mul_mod_noop_right(q, a * b, p);
        assert((q * ((a * b) % p)) % p == 0) by {
            assert(q * ((a * b) % p) == 0);
        }
        lemma_mod_diff_zero(p * b, q * (a * b), p);
        lemma_euclid_small(p, r, b);
    }
}

/// Euclid's lemma: a prime dividing a product divides one of the factors.
pub proof fn lemma_euclid(p: int, a: int, b: int)
    requires
        is_prime(p),
        a >= 0,
        b >= 0,
        (a * b) % p == 0,
    ensures
        a % p == 0 || b % p == 0,
{
    if a % p != 0 {
        let ar = a % p;
        lemma_mul_mod_noop_left(a, b, p);
        lemma_mod_bound(a, p);
        lemma_euclid_small(p, ar, b);
    }
}

/// Binomial coefficient, by Pascal's rule.
pub open spec fn binom(n: nat, k: nat) -> nat
    decreases n,
{
    if k == 0 {
        1
    } else if n == 0 {
        0
    } else {
        binom((n - 1) as nat, (k - 1) as nat) + binom((n - 1) as nat, k)
    }
}

proof fn lemma_binom_zero_above(n: nat, k: nat)
    requires
        k > n,
    ensures
        binom(n, k) == 0,
    decreases n,
{
    if n > 0 {
        lemma_binom_zero_above((n - 1) as nat, (k - 1) as nat);
        lemma_binom_zero_above((n - 1) as nat, k);
    }
}

/// Absorption identity `k * C(n, k) == n * C(n - 1, k - 1)`.
proof fn lemma_binom_absorb(n: nat, k: nat)
    requires
        n >= 1,
        k >= 1,
    ensures
        k * binom(n, k) == n * binom((n - 1) as nat, (k - 1) as nat),
    decreases n,
{
    let n1 = (n - 1) as nat;
    let k1 = (k - 1) as nat;
    if n1 == 0 {
        lemma_binom_zero_above(0, k);
        assert(binom(n, k) == binom(0, k1) + binom(0, k));
        if k > 1 {
            lemma_binom_zero_above(0, k1);
            assert(k * binom(n, k) == 0) by (nonlinear_arith)
                requires binom(n, k) == 0;
        } else {
            assert(binom(0, 0) == 1);
        }
    } else {
        let n2 = (n - 2) as nat;
        lemma_binom_absorb(n1, k);
        // k * C(n-1, k) == (n-1) * C(n-2, k-1)
        if k1 == 0 {
            assert(k == 1);
            assert(binom(n, 1) == binom(n1, 0) + binom(n1, 1));
            assert(binom(n1, 0) == 1);
            assert(binom(n2, 0) == 1);
            assert(k * binom(n1, k) == n1 * binom(n2, k1));
            assert(binom(n1, 1) == n1) by (nonlinear_arith)
                requires k == 1, k * binom(n1, k) == n1 * binom(n2, k1), binom(n2, k1) == 1;
            assert(k * binom(n, k) == n * binom((n - 1) as nat, (k - 1) as nat)) by (nonlinear_arith)
                requires k == 1, binom(n, k) == 1 + binom(n1, 1), binom(n1, 1) == n1, n == n1 + 1,
                    binom((n - 1) as nat, (k - 1) as nat) == 1;
            assert(binom((n - 1) as nat, (k - 1) as nat) == 1);
        } else {
            lemma_binom_absorb(n1, k1);
            let k2 = (k - 2) as nat;
            // (k-1) * C(n-1, k-1) == (n-1) * C(n-2, k-2)
            assert(binom(n1, k1) == binom(n2, k2) + binom(n2, k1));
            assert(binom(n, k) == binom(n1, k1) + binom(n1, k));
            let a = binom(n1, k1);
            let b = binom(n1, k);
            let c = binom(n2, k2);
            let d = binom(n2, k1);
            assert(k * (a + b) == n * a) by (nonlinear_arith)
                requires
                    k * b == n1 * d,
                    k1 * a == n1 * c,
                    a == c + d,
                    k == k1 + 1,
                    n == n1 + 1,
            ;
        }
    }
}

/// A prime divides every inner binomial coefficient of its own row.
proof fn lemma_prime_divides_binom(p: nat, k: nat)
    requires
        is_prime(p as int),
        0 < k < p,
    ensures
        binom(p, k) % p == 0,
{
    lemma_binom_absorb(p, k);
    let c = binom((p - 1) as nat, (k - 1) as nat);
    lemma_mod_multiples_basic(c as int, p as int);
    assert(((k * binom(p, k)) as int) % (p as int) == 0) by {
        lemma_mul_is_commutative(p as int, c as int);
    }
    lemma_euclid(p as int, k as int, binom(p, k) as int);
    lemma_small_mod(k, p);
}

/// Partial binomial sum `sum_{i <= m} C(n, i) x^i`.
pub open spec fn binom_sum(n: nat, x: int, m: nat) -> int
    decreases m,
{
    if m == 0 {
        binom(n, 0) * pow(x, 0)
    } else {
        binom_sum(n, x, (m - 1) as nat) + binom(n, m) * pow(x, m)
    }
}

proof fn lemma_pow_succ(x: int, m: nat)
    ensures
        pow(x, m + 1) == x * pow(x, m),
{
    reveal(pow);
}

proof fn lemma_binom_sum_pascal(n: nat, x: int, m: nat)
    requires
        m >= 1,
    ensures
        binom_sum(n + 1, x, m) == binom_sum(n, x, m) + x * binom_sum(n, x, (m - 1) as nat),
    decreases m,
{
    let m1 = (m - 1) as nat;
    lemma_pow_succ(x, m1);
    if m == 1 {
        lemma_pow0(x);
        assert(binom(n + 1, 1) == binom(n, 0) + binom(n, 1));
        assert(binom(n + 1, 0) == 1);
        assert(binom(n, 0) == 1);
        assert(binom_sum(n + 1, x, 0) == binom(n + 1, 0) * pow(x, 0));
        assert(binom_sum(n + 1, x, 0) == 1);
        assert(binom_sum(n, x, 0) == binom(n, 0) * pow(x, 0));
        assert(binom_sum(n + 1, x, 1) == 1 + binom(n + 1, 1) * pow(x, 1));
        assert(binom_sum(n, x, 1) == 1 + binom(n, 1) * pow(x, 1));
        assert(pow(x, 1) == x);
        assert(binom_sum(n, x, 0) == 1);
        assert((binom(n, 0) + binom(n, 1)) * x == x + binom(n, 1) * x) by (nonlinear_arith)
            requires binom(n, 0) == 1;
    } else {
        lemma_binom_sum_pascal(n, x, m1);
        let a = binom(n, m1);
        let b = binom(n, m);
        assert(binom(n + 1, m) == a + b);
        let s1 = binom_sum(n, x, (m1 - 1) as nat);
        assert(binom_sum(n, x, m1) == s1 + a * pow(x, m1));
        assert((a + b) * pow(x, m) == b * pow(x, m) + x * (a * pow(x, m1))) by (nonlinear_arith)
            requires pow(x, m) == x * pow(x, m1);
        assert(x * (s1 + a * pow(x, m1)) == x * s1 + x * (a * pow(x, m1))) by (nonlinear_arith);
    }
}

proof fn lemma_binom_sum_beyond(n: nat, x: int)
    ensures
        binom_sum(n, x, n + 1) == binom_sum(n, x, n),
{
    lemma_binom_zero_above(n, n + 1);
}

/// The binomial theorem for `(x + 1)^n`.
pub proof fn lemma_binomial(n: nat, x: int)
    ensures
        pow(x + 1, n) == binom_sum(n, x, n),
    decreases n,
{
    if n == 0 {
        lemma_pow0(x + 1);
        lemma_pow0(x);
    } else {
        let n1 = (n - 1) as nat;
        lemma_binomial(n1, x);
        lemma_pow_succ(x + 1, n1);
        lemma_binom_sum_pascal(n1, x, n);
        lemma_binom_sum_beyond(n1, x);
        let s = binom_sum(n1, x, n1);
        assert((x + 1) * s == s + x * s) by (nonlinear_arith);
    }
}

proof fn lemma_binom_sum_mod_prime(p: nat, x: int, m: nat)
    requires
        is_prime(p as int),
        m < p,
    ensures
        binom_sum(p, x, m) % (p as int) == 1,
    decreases m,
{
    if m == 0 {
        lemma_pow0(x);
        assert(binom(p, 0) == 1);
        assert(binom_sum(p, x, 0) == binom(p, 0) * pow(x, 0));
        lemma_small_mod(1, p);
    } else {
        let m1 = (m - 1) as nat;
        lemma_binom_sum_mod_prime(p, x, m1);
        lemma_prime_divides_binom(p, m);
        let c = binom(p, m) as int;
        assert(c % (p as int) == 0);
        lemma_mul_mod_noop_left(c, pow(x, m), p as int);
        assert((c % (p as int)) * pow(x, m) == 0);
        lemma_add_mod_noop(binom_sum(p, x, m1), c * pow(x, m), p as int);
        lemma_small_mod(1, p);
    }
}

/// `(x + 1)^p == x^p + 1 (mod p)` for a prime `p`.
proof fn lemma_freshman(p: nat, x: int)
    requires
        is_prime(p as int),
    ensures
        pow(x + 1, p) % (p as int) == (pow(x, p) + 1) % (p as int),
{
    lemma_binomial(p, x);
    let p1 = (p - 1) as nat;
    lemma_binom_sum_mod_prime(p, x, p1);
    assert(binom(p, p) == 1) by {
        lemma_binom_absorb_diag(p);
    }
    assert(binom_sum(p, x, p) == binom_sum(p, x, p1) + pow(x, p));
    lemma_add_mod_noop(binom_sum(p, x, p1), pow(x, p), p as int);
    lemma_add_mod_noop(1, pow(x, p), p as int);
    lemma_small_mod(1, p);
}

proof fn lemma_binom_absorb_diag(n: nat)
    ensures
        binom(n, n) == 1,
    decreases n,
{
    if n > 0 {
        lemma_binom_absorb_diag((n - 1) as nat);
        lemma_binom_zero_above((n - 1) as nat, n);
    }
}

/// `a^p == a (mod p)` for a prime `p` and `a >= 0`.
pub proof fn lemma_fermat_pow(p: nat, a: nat)
    requires
        is_prime(p as int),
    ensures
        pow(a as int, p) % (p as int) == (a as int) % (p as int),
    decreases a,
{
    if a == 0 {
        lemma0_pow(p);
    } else {
        let a1 = (a - 1) as nat;
        lemma_fermat_pow(p, a1);
        lemma_freshman(p, a1 as int);
        lemma_add_mod_noop(pow(a1 as int, p), 1, p as int);
        lemma_add_mod_noop(a1 as int, 1, p as int);
    }
}

/// Fermat's little theorem: `a^(p-1) == 1 (mod p)` when the prime `p` does not divide `a`.
pub proof fn lemma_fermat(p: nat, a: nat)
    requires
        is_prime(p as int),
        a % p != 0,
    ensures
        pow(a as int, (p - 1) as nat) % (p as int) == 1,
{
    let p1 = (p - 1) as nat;
    lemma_fermat_pow(p, a);
    lemma_pow_succ(a as int, p1);
    let t = pow(a as int, p1);
    if a == 0 {
        lemma_small_mod(0, p);
    }
    assert(a > 0);
    lemma_pow_positive(a as int, p1);
    // a * t == a (mod p)  ==>  a * (t - 1) == 0 (mod p)
    assert(a * (t - 1) == a * t - a) by (nonlinear_arith);
    lemma_sub_mod_noop(a * t, a as int, p as int);
    assert(((a * t) % (p as int) - (a as int) % (p as int)) == 0);
    lemma_small_mod(0, p);
    lemma_euclid(p as int, a as int, t - 1);
    assert((t - 1) % (p as int) == 0);
    lemma_add_mod_noop(t - 1, 1, p as int);
    lemma_small_mod(1, p);
}

} // verus!

//! Modular arithmetic on machine words.
use vstd::arithmetic::div_mod::*;
use vstd::arithmetic::mul::*;
use vstd::arithmetic::power::*;
use vstd::prelude::*;

use crate::number_theory::{is_prime, lemma_fermat};

verus! {

/// What `pow_mod_u64` returns: `base^exp mod modu`, except that an empty
/// product is not reduced (so `modu == 1, exp == 0` gives 1).
pub open spec fn spec_pow_mod(base: int, exp: nat, modu: int) -> int {
    if modu == 1 && exp == 0 {
        1
    } else {
        pow(base, exp) % modu
    }
}

/// Squaring step of binary exponentiation.
pub proof fn lemma_pow_halve(b: int, e: nat)
    ensures
        e % 2 == 0 ==> pow(b, e) == pow(b * b, e / 2),
        e % 2 == 1 ==> pow(b, e) == b * pow(b * b, e / 2),
{
    lemma_pow_multiplies(b, 2, e / 2);
    reveal_with_fuel(pow, 3);
    assert(pow(b, 2) == b * b);
    if e % 2 == 1 {
        lemma_pow_adds(b, 1, 2 * (e / 2));
        assert(pow(b, 1) == b);
    }
}

proof fn lemma_pow_mod_step(r: int, b: int, e: nat, m: int)
    requires
        m > 0,
    ensures
        e % 2 == 1 ==> ((r * b) % m) * pow((b * b) % m, e / 2) % m == (r * pow(b, e)) % m,
        e % 2 == 0 ==> r * pow((b * b) % m, e / 2) % m == (r * pow(b, e)) % m,
{
    lemma_pow_halve(b, e);
    let q = pow(b * b, e / 2);
    lemma_pow_mod_noop(b * b, e / 2, m);
    let qm = pow((b * b) % m, e / 2);
    assert(qm % m == q % m);
    if e % 2 == 1 {
        lemma_mul_mod_noop_general(r * b, qm, m);
        lemma_mul_mod_noop_general(r * b, q, m);
        lemma_mul_is_associative(r, b, q);
    } else {
        lemma_mul_mod_noop_general(r, qm, m);
        lemma_mul_mod_noop_general(r, q, m);
    }
}

/// `base^exp mod modu` by binary exponentiation with 128-bit products.
pub fn pow_mod_u64(base: u64, exp: u64, modu: u32) -> (r: u32)
    requires
        modu > 0,
    ensures
        r == spec_pow_mod(base as int, exp as nat, modu as int),
        modu > 1 ==> r < modu,
{
    let modu_u64 = modu as u64;
    let mut result: u64 = 1;
    let mut base_acc = base % modu_u64;
    let mut e = exp;
    proof {
        lemma_pow_mod_noop(base as int, exp as nat, modu as int);
        lemma_mul_basics(pow(base_acc as int, e as nat));
    }
    while e > 0
        invariant
            modu_u64 == modu as u64,
            modu > 0,
            base_acc < modu,
            result < modu || result == 1,
            e <= exp,
            exp == 0 ==> result == 1,
            e == 0 && exp > 0 ==> result < modu,
            (result * pow(base_acc as int, e as nat)) % (modu as int) == pow(base as int, exp as nat)
                % (modu as int),
        decreases e,
    {
        proof {
            lemma_pow_mod_step(result as int, base_acc as int, e as nat, modu as int);
            assert(e & 1 == 1 <==> e % 2 == 1) by (bit_vector);
            assert(e >> 1 == e / 2) by (bit_vector);
            assert(base_acc * base_acc <= 0xffff_ffffu64 * 0xffff_ffffu64) by (nonlinear_arith)
                requires base_acc < 0x1_0000_0000u64;
        }
        if e & 1 == 1 {
            proof {
                assert(result * base_acc <= 0xffff_ffffu64 * 0xffff_ffffu64) by (nonlinear_arith)
                    requires base_acc < 0x1_0000_0000u64, result < 0x1_0000_0000u64;
            }
            result = ((result as u128 * base_acc as u128) % modu_u64 as u128) as u64;
        }
        base_acc = ((base_acc as u128 * base_acc as u128) % modu_u64 as u128) as u64;
        e >>= 1;
    }
    proof {
        lemma_pow0(base_acc as int);
        assert(result * pow(base_acc as int, 0) == result);
        if result < modu {
            lemma_small_mod(result as nat, modu as nat);
        }
    }
    result as u32
}

/// `a^(p-2) mod p`: the inverse of `a` modulo a prime `p` (Fermat).
pub fn mod_inv_prime(a: u32, p: u32) -> (r: u32)
    requires
        p >= 2,
    ensures
        r == pow(a as int, (p - 2) as nat) % (p as int),
        r < p,
{
    pow_mod_u64(a as u64, (p - 2) as u64, p)
}

/// For a prime `p` that does not divide `a`, `a^(p-2) mod p` (what
/// `mod_inv_prime` returns) is the inverse of `a` modulo `p`.
pub proof fn lemma_mod_inv_prime_is_inverse(a: int, p: int)
    requires
        is_prime(p),
        a >= 0,
        a % p != 0,
    ensures
        (a * (pow(a, (p - 2) as nat) % p)) % p == 1,
{
    lemma_fermat(p as nat, a as nat);
    lemma_pow_adds(a, 1, (p - 2) as nat);
    lemma_pow1(a);
    assert(pow(a, (1 + (p - 2)) as nat) == pow(a, (p - 1) as nat));
    lemma_mul_mod_noop_right(a, pow(a, (p - 2) as nat), p);
}

} // verus!

//! The corridor sieve of the large-digit search: a batch of corridor indices
//! `m = m_start + j` (`j < batch_size`) as a bitset, with every `j` cleared for
//! which a table prime divides `6m - 1` or `6m + 1`. The primes come in three
//! tiers (to 10^6, to 10^8, beyond); the residues `m_start mod p` are given.
use vstd::arithmetic::div_mod::*;
use vstd::arithmetic::power::pow;
use vstd::prelude::*;
use vstd::string::*;

use crate::arith::{lemma_mod_inv_prime_is_inverse, pow_mod_u64, spec_pow_mod};
use crate::finder::lemma_inverse_class;
use crate::fixed_n::{bitset_bit, clear_bit, offsets_below, survivor_offsets};
use crate::number_theory::is_prime;
use crate::primes::{lemma_primes_below_props, prime_sieve, primes_below};
use crate::text::text_eq;

verus! {

/// The inverse of 6 modulo `p` by Fermat: `6^(p-2) mod p`.
pub fn inv6_mod(p: u32) -> (r: u32)
    requires
        p >= 2,
    ensures
        r == pow(6, (p - 2) as nat) % (p as int),
        r < p,
{
    pow_mod_u64(6, (p - 2) as u64, p)
}

/// The primes of `ps` in `[lo, hi]`, in order.
pub open spec fn tier(ps: Seq<u32>, lo: int, hi: int) -> Seq<u32>
    decreases ps.len(),
{
    if ps.len() == 0 {
        seq![]
    } else {
        let rest = tier(ps.drop_last(), lo, hi);
        if lo <= ps.last() <= hi {
            rest.push(ps.last())
        } else {
            rest
        }
    }
}

/// The prime tables of the corridor sieve, with the inverse of 6 modulo each prime.
#[derive(Clone, Debug)]
pub struct SieveData {
    pub primes_small: Vec<u32>,
    pub inv6_small: Vec<u32>,
    pub primes_ext: Vec<u32>,
    pub inv6_ext: Vec<u32>,
    pub primes_deep: Vec<u32>,
    pub inv6_deep: Vec<u32>,
}

/// A prime table with the inverse of 6 modulo each of its primes.
pub open spec fn inverse_table_ok(primes: Seq<u32>, inv6: Seq<u32>) -> bool {
    &&& inv6.len() == primes.len()
    &&& forall|i: int|
        0 <= i < primes.len() ==> {
            &&& 5 <= #[trigger] primes[i]
            &&& is_prime(primes[i] as int)
            &&& 1 <= inv6[i] < primes[i]
            &&& (6 * inv6[i]) % (primes[i] as int) == 1
        }
}

/// The tables hold the primes up to `limit` in their tiers, each with its inverse of 6.
pub open spec fn sieve_data_for(d: SieveData, limit: int) -> bool {
    &&& d.primes_small@ == tier(primes_below(limit + 1), 5, 1_000_000)
    &&& d.primes_ext@ == tier(primes_below(limit + 1), 1_000_001, 100_000_000)
    &&& d.primes_deep@ == tier(primes_below(limit + 1), 100_000_001, u32::MAX as int)
    &&& inverse_table_ok(d.primes_small@, d.inv6_small@)
    &&& inverse_table_ok(d.primes_ext@, d.inv6_ext@)
    &&& inverse_table_ok(d.primes_deep@, d.inv6_deep@)
}

/// The primes of `all` in `[lo, hi]` (at least 5), each with the inverse of 6.
fn tier_with_inverses(all: &Vec<u32>, lo: u32, hi: u32) -> (r: (Vec<u32>, Vec<u32>))
    requires
        5 <= lo,
        forall|i: int| 0 <= i < all@.len() ==> is_prime(#[trigger] all@[i] as int),
    ensures
        r.0@ == tier(all@, lo as int, hi as int),
        inverse_table_ok(r.0@, r.1@),
{
    let mut primes: Vec<u32> = Vec::new();
    let mut inv6: Vec<u32> = Vec::new();
    let mut i: usize = 0;
    while i < all.len()
        invariant
            i <= all@.len(),
            5 <= lo,
            forall|t: int| 0 <= t < all@.len() ==> is_prime(#[trigger] all@[t] as int),
            primes@ == tier(all@.subrange(0, i as int), lo as int, hi as int),
            inverse_table_ok(primes@, inv6@),
        decreases all@.len() - i,
    {
        let p = all[i];
        proof {
            let next = all@.subrange(0, i + 1);
            assert(next.drop_last() =~= all@.subrange(0, i as int));
            assert(next.last() == p);
        }
        if lo <= p && p <= hi {
            let inv = inv6_mod(p);
            proof {
                assert(is_prime(p as int));
                if p == 6 {
                    assert((6int % 2) == 0);
                }
                if p > 6 {
                    lemma_small_mod(6, p as nat);
                } else {
                    assert(6int % 5 == 1);
                }
                lemma_mod_inv_prime_is_inverse(6, p as int);
                assert(inv as int == pow(6, (p - 2) as nat) % (p as int));
                if inv == 0 {
                    lemma_small_mod(0, p as nat);
                    assert((6 * inv) % (p as int) == 0);
                }
            }
            primes.push(p);
            inv6.push(inv);
        }
        i += 1;
    }
    proof {
        assert(all@.subrange(0, all@.len() as int) =~= all@);
    }
    (primes, inv6)
}

impl SieveData {
    /// The tables for the primes up to `sieve_limit`: to 10^6 (from 5), to 10^8, and beyond.
    pub fn build(sieve_limit: usize) -> (d: SieveData)
        requires
            sieve_limit <= u32::MAX,
            sieve_limit + 0x10000 <= usize::MAX,
        ensures
            sieve_data_for(d, sieve_limit as int),
    {
        let all = prime_sieve(sieve_limit);
        proof {
            lemma_primes_below_props(sieve_limit + 1);
        }
        let (primes_small, inv6_small) = tier_with_inverses(&all, 5, 1_000_000);
        let (primes_ext, inv6_ext) = tier_with_inverses(&all, 1_000_001, 100_000_000);
        let (primes_deep, inv6_deep) = tier_with_inverses(&all, 100_000_001, u32::MAX);
        SieveData { primes_small, inv6_small, primes_ext, inv6_ext, primes_deep, inv6_deep }
    }

    /// The memory the tables take: four bytes per entry.
    pub fn cache_bytes(&self) -> (r: usize)
        requires
            4 * (self.primes_small@.len() + self.inv6_small@.len() + self.primes_ext@.len() + self.inv6_ext@.len()
                + self.primes_deep@.len() + self.inv6_deep@.len()) <= usize::MAX,
        ensures
            r == 4 * (self.primes_small@.len() + self.inv6_small@.len() + self.primes_ext@.len()
                + self.inv6_ext@.len() + self.primes_deep@.len() + self.inv6_deep@.len()),
    {
        (self.primes_small.len() + self.inv6_small.len() + self.primes_ext.len() + self.inv6_ext.len()
            + self.primes_deep.len() + self.inv6_deep.len()) * 4
    }
}

/// `p` divides `6m - 1` or `6m + 1` for the corridor index `m = m_mod + j`.
pub open spec fn corridor_hit(p: int, m_mod: int, j: int) -> bool {
    (6 * (m_mod + j) - 1) % p == 0 || (6 * (m_mod + j) + 1) % p == 0
}

/// Some prime of the tier rules out offset `j`, given each prime's residue of `m_start`.
pub open spec fn tier_hits(primes: Seq<u32>, m_mods: Seq<u32>, j: int) -> bool {
    exists|i: int| 0 <= i < primes.len() && #[trigger] corridor_hit(primes[i] as int, m_mods[i] as int, j)
}

/// The residues fit the tier: one per prime, each below its prime.
pub open spec fn residues_ok(primes: Seq<u32>, m_mods: Seq<u32>) -> bool {
    &&& m_mods.len() == primes.len()
    &&& forall|i: int| 0 <= i < primes.len() ==> #[trigger] m_mods[i] < primes[i]
}

/// Clears the offsets `j < batch_size` with `j == start (mod p)`.
fn clear_progression(alive: &mut Vec<u64>, start: usize, p: usize, batch_size: usize)
    requires
        start < p,
        batch_size + p <= usize::MAX,
        batch_size <= 64 * old(alive)@.len(),
    ensures
        final(alive)@.len() == old(alive)@.len(),
        forall|j: int|
            0 <= j < 64 * old(alive)@.len() ==> #[trigger] bitset_bit(final(alive)@, j) == (bitset_bit(
                old(alive)@,
                j,
            ) && !(j < batch_size && j % (p as int) == start)),
{
    let mut j = start;
    proof {
        lemma_small_mod(start as nat, p as nat);
        assert forall|t: int| 0 <= t < start implies #[trigger] (t % (p as int)) != start by {
            lemma_small_mod(t as nat, p as nat);
        }
    }
    while j < batch_size
        invariant
            start < p,
            batch_size + p <= usize::MAX,
            batch_size <= 64 * old(alive)@.len(),
            alive@.len() == old(alive)@.len(),
            start <= j <= batch_size + p,
            (j as int) % (p as int) == start,
            forall|t: int|
                0 <= t < 64 * old(alive)@.len() ==> #[trigger] bitset_bit(alive@, t) == (bitset_bit(old(alive)@, t)
                    && !(t < batch_size && t < j && t % (p as int) == start)),
        decreases batch_size + p - j,
    {
        let ghost before = alive@;
        clear_bit(alive, j);
        proof {
            assert forall|t: int| 0 <= t < 64 * old(alive)@.len() implies #[trigger] bitset_bit(alive@, t) == (
            bitset_bit(old(alive)@, t) && !(t < batch_size && t < j + p && t % (p as int) == start)) by {
                assert(bitset_bit(before, t) == (bitset_bit(old(alive)@, t) && !(t < batch_size && t < j && t % (
                p as int) == start)));
                if j < t && t < j + p && t % (p as int) == start {
                    lemma_fundamental_div_mod(j as int, p as int);
                    lemma_fundamental_div_mod(t, p as int);
                    let a = (j as int) / (p as int);
                    let b = t / (p as int);
                    assert(a < b) by (nonlinear_arith)
                        requires j == p * a + start, t == p * b + start, j < t, p > 0;
                    assert(p * a + p <= p * b) by (nonlinear_arith)
                        requires a < b, p > 0;
                }
            }
            lemma_mod_add_multiples_vanish(j as int, p as int);
        }
        j += p;
    }
}

proof fn lemma_shift_class(m: int, j: int, p: int, target: int, r: int)
    requires
        0 <= m < p,
        0 <= target < p,
        j >= 0,
        r == (if target >= m { target - m } else { p + target - m }),
    ensures
        (j % p == r) <==> ((m + j) % p == target),
{
    lemma_fundamental_div_mod(j, p);
    let q = j / p;
    let jr = j % p;
    lemma_mod_add_multiples_vanish(m + jr, p);
    assert((m + j) % p == (m + jr) % p) by {
        lemma_mod_multiples_vanish(q, m + jr, p);
        assert(m + j == p * q + (m + jr));
    }
    if m + jr < p {
        lemma_small_mod((m + jr) as nat, p as nat);
    } else {
        lemma_fundamental_div_mod_converse(m + jr, p, 1, m + jr - p);
    }
}

/// Clears from the bitset every offset `j < batch_size` for which a prime of the
/// tier divides `6m - 1` or `6m + 1`, with `m = m_start + j` and `m_mods[i]` the
/// residue of `m_start` modulo `primes[i]`.
pub fn sieve_tier(alive: &mut Vec<u64>, batch_size: usize, primes: &[u32], inv6: &[u32], m_mods: &[u32])
    requires
        inverse_table_ok(primes@, inv6@),
        residues_ok(primes@, m_mods@),
        batch_size <= 64 * old(alive)@.len(),
        batch_size + u32::MAX <= usize::MAX,
    ensures
        final(alive)@.len() == old(alive)@.len(),
        forall|j: int|
            0 <= j < 64 * old(alive)@.len() ==> #[trigger] bitset_bit(final(alive)@, j) == (bitset_bit(
                old(alive)@,
                j,
            ) && !(j < batch_size && tier_hits(primes@, m_mods@, j))),
{
    let mut idx: usize = 0;
    while idx < primes.len()
        invariant
            idx <= primes@.len(),
            inverse_table_ok(primes@, inv6@),
            residues_ok(primes@, m_mods@),
            batch_size <= 64 * old(alive)@.len(),
            batch_size + u32::MAX <= usize::MAX,
            alive@.len() == old(alive)@.len(),
            forall|j: int|
                0 <= j < 64 * old(alive)@.len() ==> #[trigger] bitset_bit(alive@, j) == (bitset_bit(old(alive)@, j)
                    && !(j < batch_size && tier_hits(primes@.subrange(0, idx as int), m_mods@.subrange(
                    0,
                    idx as int,
                ), j))),
        decreases primes@.len() - idx,
    {
        let p = primes[idx];
        let inv = inv6[idx];
        let m = m_mods[idx];
        let r1: u32 = if inv >= m { inv - m } else { p - m + inv };
        let comp = p - inv;
        let r2: u32 = if comp >= m { comp - m } else { p - m + comp };
        clear_progression(alive, r1 as usize, p as usize, batch_size);
        clear_progression(alive, r2 as usize, p as usize, batch_size);
        proof {
            assert(5 <= primes@[idx as int]);
            assert forall|j: int| 0 <= j < 64 * old(alive)@.len() implies #[trigger] bitset_bit(alive@, j) == (
            bitset_bit(old(alive)@, j) && !(j < batch_size && tier_hits(
                primes@.subrange(0, idx + 1),
                m_mods@.subrange(0, idx + 1),
                j,
            ))) by {
                let ps0 = primes@.subrange(0, idx as int);
                let ms0 = m_mods@.subrange(0, idx as int);
                let ps1 = primes@.subrange(0, idx + 1);
                let ms1 = m_mods@.subrange(0, idx + 1);
                if 0 <= j {
                    lemma_shift_class(m as int, j, p as int, inv as int, r1 as int);
                    lemma_shift_class(m as int, j, p as int, comp as int, r2 as int);
                    lemma_inverse_class(m + j, p as int, inv as int);
                    lemma_small_mod(comp as nat, p as nat);
                    let here = corridor_hit(p as int, m as int, j);
                    assert(here == ((j % (p as int)) == r1 || (j % (p as int)) == r2));
                    assert(tier_hits(ps1, ms1, j) == (tier_hits(ps0, ms0, j) || here)) by {
                        if tier_hits(ps1, ms1, j) {
                            let i = choose|i: int| 0 <= i < ps1.len() && #[trigger] corridor_hit(ps1[i] as int, ms1[i] as int, j);
                            if i < idx {
                                assert(corridor_hit(ps0[i] as int, ms0[i] as int, j));
                            }
                        }
                        if tier_hits(ps0, ms0, j) {
                            let i = choose|i: int| 0 <= i < ps0.len() && #[trigger] corridor_hit(ps0[i] as int, ms0[i] as int, j);
                            assert(corridor_hit(ps1[i] as int, ms1[i] as int, j));
                        }
                        if here {
                            assert(corridor_hit(ps1[idx as int] as int, ms1[idx as int] as int, j));
                        }
                    }
                }
            }
        }
        idx += 1;
    }
    proof {
        assert(primes@.subrange(0, idx as int) =~= primes@);
        assert(m_mods@.subrange(0, idx as int) =~= m_mods@);
    }
}

/// What `corridor_hit` says of the residue: with `m_mod` the residue of `m_start`
/// modulo `p`, the offset `j` is hit exactly when `p` divides `6m - 1` or `6m + 1`
/// for the corridor index `m = m_start + j`.
pub proof fn lemma_corridor_hit_meaning(p: int, m_start: int, j: int)
    requires
        p > 0,
        m_start >= 0,
        j >= 0,
    ensures
        corridor_hit(p, m_start % p, j) <==> ((6 * (m_start + j) - 1) % p == 0 || (6 * (m_start + j) + 1) % p == 0),
{
    lemma_fundamental_div_mod(m_start, p);
    let q = m_start / p;
    let r = m_start % p;
    assert(6 * (m_start + j) - 1 == p * (6 * q) + (6 * (r + j) - 1)) by (nonlinear_arith)
        requires m_start == p * q + r;
    assert(6 * (m_start + j) + 1 == p * (6 * q) + (6 * (r + j) + 1)) by (nonlinear_arith)
        requires m_start == p * q + r;
    lemma_mod_multiples_vanish(6 * q, 6 * (r + j) - 1, p);
    lemma_mod_multiples_vanish(6 * q, 6 * (r + j) + 1, p);
}

/// How deep the corridor sieve goes: the primes to 10^6, to 10^8, or all of the table.
#[derive(Clone, Copy, Debug, PartialEq, Eq)]
pub enum SieveDepth {
    Base,
    Extended,
    Deep,
}

/// The name of a sieve depth.
pub open spec fn depth_name(d: SieveDepth) -> Seq<char> {
    match d {
        SieveDepth::Base => "base"@,
        SieveDepth::Extended => "extended"@,
        SieveDepth::Deep => "deep"@,
    }
}

impl SieveDepth {
    /// The depth named `s` (`base`, `extended` or `deep`), or an error naming it.
    pub fn from_str(s: &str) -> (r: Result<SieveDepth, String>)
        ensures
            r matches Ok(d) ==> depth_name(d) == s@,
            r is Err ==> s@ != "base"@ && s@ != "extended"@ && s@ != "deep"@,
            r matches Err(e) ==> e@ == "unsupported sieve_depth: "@ + s@,
    {
        if text_eq(s, "base") {
            Ok(SieveDepth::Base)
        } else if text_eq(s, "extended") {
            Ok(SieveDepth::Extended)
        } else if text_eq(s, "deep") {
            Ok(SieveDepth::Deep)
        } else {
            let mut e = String::from_str("unsupported sieve_depth: ");
            e.append(s);
            Err(e)
        }
    }

    /// The name of the depth.
    pub fn as_str(&self) -> (s: &'static str)
        ensures
            s@ == depth_name(*self),
    {
        match self {
            SieveDepth::Base => "base",
            SieveDepth::Extended => "extended",
            SieveDepth::Deep => "deep",
        }
    }
}

/// Offset `j` survives every tier the depth uses.
pub open spec fn corridor_kept(
    d: SieveData,
    depth: SieveDepth,
    small: Seq<u32>,
    ext: Seq<u32>,
    deep: Seq<u32>,
    j: int,
) -> bool {
    &&& !tier_hits(d.primes_small@, small, j)
    &&& (depth != SieveDepth::Base ==> !tier_hits(d.primes_ext@, ext, j))
    &&& (depth == SieveDepth::Deep ==> !tier_hits(d.primes_deep@, deep, j))
}

/// The offsets `j < m` (and below `batch_size`) that survive, ascending.
pub open spec fn kept_offsets(
    d: SieveData,
    depth: SieveDepth,
    small: Seq<u32>,
    ext: Seq<u32>,
    deep: Seq<u32>,
    batch_size: int,
    m: int,
) -> Seq<u64>
    decreases m,
{
    if m <= 0 {
        seq![]
    } else if m - 1 < batch_size && corridor_kept(d, depth, small, ext, deep, m - 1) {
        kept_offsets(d, depth, small, ext, deep, batch_size, m - 1).push((m - 1) as u64)
    } else {
        kept_offsets(d, depth, small, ext, deep, batch_size, m - 1)
    }
}

/// What the corridor sieve needs of its tables and residues.
pub open spec fn corridor_inputs_ok(d: SieveData, small: Seq<u32>, ext: Seq<u32>, deep: Seq<u32>) -> bool {
    &&& inverse_table_ok(d.primes_small@, d.inv6_small@)
    &&& inverse_table_ok(d.primes_ext@, d.inv6_ext@)
    &&& inverse_table_ok(d.primes_deep@, d.inv6_deep@)
    &&& residues_ok(d.primes_small@, small)
    &&& residues_ok(d.primes_ext@, ext)
    &&& residues_ok(d.primes_deep@, deep)
}

/// Sieves with the primes to 10^6.
pub fn base_sieve(alive: &mut Vec<u64>, batch_size: usize, m_mods: &[u32], sieve: &SieveData)
    requires
        inverse_table_ok(sieve.primes_small@, sieve.inv6_small@),
        residues_ok(sieve.primes_small@, m_mods@),
        batch_size <= 64 * old(alive)@.len(),
        batch_size + u32::MAX <= usize::MAX,
    ensures
        final(alive)@.len() == old(alive)@.len(),
        forall|j: int|
            0 <= j < 64 * old(alive)@.len() ==> #[trigger] bitset_bit(final(alive)@, j) == (bitset_bit(
                old(alive)@,
                j,
            ) && !(j < batch_size && tier_hits(sieve.primes_small@, m_mods@, j))),
{
    sieve_tier(alive, batch_size, sieve.primes_small.as_slice(), sieve.inv6_small.as_slice(), m_mods);
}

/// Sieves with the primes from 10^6 to 10^8.
pub fn extended_sieve(alive: &mut Vec<u64>, batch_size: usize, m_mods: &[u32], sieve: &SieveData)
    requires
        inverse_table_ok(sieve.primes_ext@, sieve.inv6_ext@),
        residues_ok(sieve.primes_ext@, m_mods@),
        batch_size <= 64 * old(alive)@.len(),
        batch_size + u32::MAX <= usize::MAX,
    ensures
        final(alive)@.len() == old(alive)@.len(),
        forall|j: int|
            0 <= j < 64 * old(alive)@.len() ==> #[trigger] bitset_bit(final(alive)@, j) == (bitset_bit(
                old(alive)@,
                j,
            ) && !(j < batch_size && tier_hits(sieve.primes_ext@, m_mods@, j))),
{
    sieve_tier(alive, batch_size, sieve.primes_ext.as_slice(), sieve.inv6_ext.as_slice(), m_mods);
}

/// Sieves with the primes above 10^8.
pub fn deep_sieve(alive: &mut Vec<u64>, batch_size: usize, m_mods: &[u32], sieve: &SieveData)
    requires
        inverse_table_ok(sieve.primes_deep@, sieve.inv6_deep@),
        residues_ok(sieve.primes_deep@, m_mods@),
        batch_size <= 64 * old(alive)@.len(),
        batch_size + u32::MAX <= usize::MAX,
    ensures
        final(alive)@.len() == old(alive)@.len(),
        forall|j: int|
            0 <= j < 64 * old(alive)@.len() ==> #[trigger] bitset_bit(final(alive)@, j) == (bitset_bit(
                old(alive)@,
                j,
            ) && !(j < batch_size && tier_hits(sieve.primes_deep@, m_mods@, j))),
{
    sieve_tier(alive, batch_size, sieve.primes_deep.as_slice(), sieve.inv6_deep.as_slice(), m_mods);
}

/// The offsets below `batch_size` whose bit is set, ascending.
pub fn collect_survivor_offsets(alive: &[u64], batch_size: usize) -> (out: Vec<u64>)
    requires
        64 * alive@.len() <= u64::MAX,
    ensures
        out@ == offsets_below(alive@, batch_size as int, 64 * alive@.len() as int),
{
    survivor_offsets(alive, batch_size)
}

proof fn lemma_kept_offsets(
    alive: Seq<u64>,
    d: SieveData,
    depth: SieveDepth,
    small: Seq<u32>,
    ext: Seq<u32>,
    deep: Seq<u32>,
    batch_size: int,
    m: int,
)
    requires
        m <= 64 * alive.len(),
        forall|j: int| 0 <= j < batch_size && j < 64 * alive.len() ==> #[trigger] bitset_bit(alive, j) == corridor_kept(
            d,
            depth,
            small,
            ext,
            deep,
            j,
        ),
    ensures
        offsets_below(alive, batch_size, m) == kept_offsets(d, depth, small, ext, deep, batch_size, m),
    decreases m,
{
    if m > 0 {
        lemma_kept_offsets(alive, d, depth, small, ext, deep, batch_size, m - 1);
        if m - 1 < batch_size {
            assert(bitset_bit(alive, m - 1) == corridor_kept(d, depth, small, ext, deep, m - 1));
        }
    }
}

proof fn lemma_kept_offsets_stop(
    d: SieveData,
    depth: SieveDepth,
    small: Seq<u32>,
    ext: Seq<u32>,
    deep: Seq<u32>,
    batch_size: int,
    m: int,
)
    requires
        0 <= batch_size <= m,
    ensures
        kept_offsets(d, depth, small, ext, deep, batch_size, m) == kept_offsets(
            d,
            depth,
            small,
            ext,
            deep,
            batch_size,
            batch_size,
        ),
    decreases m,
{
    if m > batch_size {
        lemma_kept_offsets_stop(d, depth, small, ext, deep, batch_size, m - 1);
    }
}

/// Sieves a batch of `batch_size` corridor indices from `m_start` to the given
/// depth and lists the surviving offsets, ascending; `small`, `ext` and `deep`
/// hold the residues of `m_start` modulo each tier's primes.
pub fn corridor_batch_survivors(
    batch_size: usize,
    depth: SieveDepth,
    sieve: &SieveData,
    small: &[u32],
    ext: &[u32],
    deep: &[u32],
) -> (out: Vec<u64>)
    requires
        corridor_inputs_ok(*sieve, small@, ext@, deep@),
        batch_size + 63 + u32::MAX <= usize::MAX,
        batch_size + 63 <= u64::MAX,
    ensures
        out@ == kept_offsets(*sieve, depth, small@, ext@, deep@, batch_size as int, batch_size as int),
{
    let words = (batch_size + 63) / 64;
    let mut alive: Vec<u64> = vec![u64::MAX; words];
    proof {
        lemma_fundamental_div_mod((batch_size + 63) as int, 64);
        assert forall|j: int| 0 <= j < 64 * words implies #[trigger] bitset_bit(alive@, j) by {
            lemma_fundamental_div_mod(j, 64);
            let w = alive@[j / 64];
            assert(w == u64::MAX);
            let s = (j % 64) as u64;
            assert(s < 64);
            assert((0xffff_ffff_ffff_ffffu64 >> s) & 1u64 == 1u64) by (bit_vector)
                requires s < 64;
        }
    }
    let ghost full = alive@;
    base_sieve(&mut alive, batch_size, small, sieve);
    let ghost after_base = alive@;
    let use_ext = match depth {
        SieveDepth::Base => false,
        _ => true,
    };
    let use_deep = match depth {
        SieveDepth::Deep => true,
        _ => false,
    };
    if use_ext {
        extended_sieve(&mut alive, batch_size, ext, sieve);
    }
    let ghost after_ext = alive@;
    if use_deep {
        deep_sieve(&mut alive, batch_size, deep, sieve);
    }
    proof {
        assert forall|j: int| 0 <= j < batch_size && j < 64 * alive@.len() implies #[trigger] bitset_bit(alive@, j)
            == corridor_kept(*sieve, depth, small@, ext@, deep@, j) by {
            assert(bitset_bit(full, j));
            assert(bitset_bit(after_base, j) == !tier_hits(sieve.primes_small@, small@, j));
        }
        lemma_kept_offsets(alive@, *sieve, depth, small@, ext@, deep@, batch_size as int, 64 * words as int);
        lemma_kept_offsets_stop(*sieve, depth, small@, ext@, deep@, batch_size as int, 64 * words as int);
    }
    collect_survivor_offsets(alive.as_slice(), batch_size)
}

/// The batch size and sieve depth for a digit target: bigger batches and a
/// deeper sieve as the numbers grow (0: to 10^6, 1: to 10^8, 2: all).
pub fn get_params(target_digits: u32) -> (r: (usize, u8))
    ensures
        target_digits <= 150 ==> r == (512_000usize, 0u8),
        151 <= target_digits <= 500 ==> r == (2_048_000usize, 1u8),
        501 <= target_digits <= 1500 ==> r == (5_120_000usize, 1u8),
        1501 <= target_digits <= 3000 ==> r == (10_240_000usize, 2u8),
        target_digits > 3000 ==> r == (20_480_000usize, 2u8),
{
    if target_digits <= 150 {
        (512_000, 0)
    } else if target_digits <= 500 {
        (2_048_000, 1)
    } else if target_digits <= 1500 {
        (5_120_000, 1)
    } else if target_digits <= 3000 {
        (10_240_000, 2)
    } else {
        (20_480_000, 2)
    }
}

/// The depth of a sieve level: 0 the first tier only, 1 with the second tier, 2
/// or more with all three.
pub fn depth_for_level(level: u8) -> (d: SieveDepth)
    ensures
        level == 0 ==> d == SieveDepth::Base,
        level == 1 ==> d == SieveDepth::Extended,
        level >= 2 ==> d == SieveDepth::Deep,
{
    if level == 0 {
        SieveDepth::Base
    } else if level == 1 {
        SieveDepth::Extended
    } else {
        SieveDepth::Deep
    }
}

/// The corridor sieve never removes a twin prime pair lying above its primes:
/// when `6m - 1` and `6m + 1` are both prime and larger than `p`, offset `j`
/// of `m = m_start + j` is not hit by `p`.
pub proof fn lemma_corridor_keeps_twins(p: int, m_start: int, j: int)
    requires
        p >= 2,
        m_start >= 0,
        j >= 0,
        6 * (m_start + j) - 1 > p,
        is_prime(6 * (m_start + j) - 1),
        is_prime(6 * (m_start + j) + 1),
    ensures
        !corridor_hit(p, m_start % p, j),
{
    lemma_corridor_hit_meaning(p, m_start, j);
    let m = m_start + j;
    assert((6 * m - 1) % p != 0);
    assert((6 * m + 1) % p != 0);
}

/// A value is in a tier exactly when it is in the list and in `[lo, hi]`.
pub proof fn lemma_tier_contains(ps: Seq<u32>, lo: int, hi: int, x: u32)
    ensures
        tier(ps, lo, hi).contains(x) <==> (ps.contains(x) && lo <= x <= hi),
    decreases ps.len(),
{
    if ps.len() > 0 {
        let rest = ps.drop_last();
        lemma_tier_contains(rest, lo, hi, x);
        let t = tier(ps, lo, hi);
        let tr = tier(rest, lo, hi);
        if rest.contains(x) {
            let k = choose|k: int| 0 <= k < rest.len() && rest[k] == x;
            assert(ps[k] == x);
        }
        if ps.contains(x) && ps.last() != x {
            let k = choose|k: int| 0 <= k < ps.len() && ps[k] == x;
            assert(rest[k] == x);
        }
        if ps.last() == x {
            assert(ps[ps.len() - 1] == x);
        }
        if lo <= ps.last() <= hi {
            assert(t[tr.len() as int] == ps.last());
            if tr.contains(x) {
                let k = choose|k: int| 0 <= k < tr.len() && tr[k] == x;
                assert(t[k] == x);
            }
            if t.contains(x) && ps.last() != x {
                let k = choose|k: int| 0 <= k < t.len() && t[k] == x;
                assert(tr[k] == x);
            }
        }
    }
}

/// The tables built for `limit` split the primes from 5 to `limit` at 10^6
/// and 10^8: the first tier holds exactly the primes in `[5, 10^6]`, the
/// second exactly those in `(10^6, 10^8]`, the third exactly those above 10^8
/// (each only up to `limit`).
pub proof fn lemma_sieve_data_tiers(d: SieveData, limit: int, p: u32)
    requires
        sieve_data_for(d, limit),
        0 <= limit <= u32::MAX,
    ensures
        d.primes_small@.contains(p) <==> (is_prime(p as int) && 5 <= p <= 1_000_000 && p <= limit),
        d.primes_ext@.contains(p) <==> (is_prime(p as int) && 1_000_000 < p <= 100_000_000 && p <= limit),
        d.primes_deep@.contains(p) <==> (is_prime(p as int) && 100_000_000 < p && p <= limit),
{
    let all = primes_below(limit + 1);
    lemma_primes_below_props(limit + 1);
    lemma_tier_contains(all, 5, 1_000_000, p);
    lemma_tier_contains(all, 1_000_001, 100_000_000, p);
    lemma_tier_contains(all, 100_000_001, u32::MAX as int, p);
    if all.contains(p) {
        let k = choose|k: int| 0 <= k < all.len() && all[k] == p;
        assert(is_prime(all[k] as int) && all[k] < limit + 1);
    }
    if is_prime(p as int) && p <= limit {
        let m: int = p as int;
        assert(all.contains(m as u32));
        assert(m as u32 == p);
    }
}

/// `p` divides `6m - 1` or `6m + 1`.
pub open spec fn divides_corridor_pair(m: int, p: int) -> bool {
    (6 * m - 1) % p == 0 || (6 * m + 1) % p == 0
}

/// The residues are those of `m_start`: one per prime, `m_start mod p`.
pub open spec fn residues_of_start(primes: Seq<u32>, m_mods: Seq<u32>, m_start: int) -> bool {
    &&& m_mods.len() == primes.len()
    &&& forall|i: int| 0 <= i < primes.len() ==> #[trigger] m_mods[i] == m_start % (primes[i] as int)
}

proof fn lemma_tier_hits_meaning(
    d: SieveData,
    limit: int,
    primes: Seq<u32>,
    m_mods: Seq<u32>,
    m_start: int,
    j: int,
)
    requires
        sieve_data_for(d, limit),
        0 <= limit <= u32::MAX,
        primes == d.primes_small@ || primes == d.primes_ext@ || primes == d.primes_deep@,
        residues_of_start(primes, m_mods, m_start),
        m_start >= 0,
        j >= 0,
    ensures
        tier_hits(primes, m_mods, j) <==> exists|p: u32| primes.contains(p) && #[trigger] divides_corridor_pair(
            m_start + j,
            p as int,
        ),
{
    assert forall|i: int| 0 <= i < primes.len() implies #[trigger] primes[i] >= 5 by {
        if primes == d.primes_small@ {
        } else if primes == d.primes_ext@ {
        } else {
        }
    }
    if tier_hits(primes, m_mods, j) {
        let i = choose|i: int| 0 <= i < primes.len() && #[trigger] corridor_hit(primes[i] as int, m_mods[i] as int, j);
        lemma_corridor_hit_meaning(primes[i] as int, m_start, j);
        assert(primes.contains(primes[i]));
        assert(divides_corridor_pair(m_start + j, primes[i] as int));
    }
    if exists|p: u32| primes.contains(p) && #[trigger] divides_corridor_pair(m_start + j, p as int) {
        let p = choose|p: u32| primes.contains(p) && #[trigger] divides_corridor_pair(m_start + j, p as int);
        let i = choose|i: int| 0 <= i < primes.len() && primes[i] == p;
        lemma_corridor_hit_meaning(p as int, m_start, j);
        assert(corridor_hit(primes[i] as int, m_mods[i] as int, j));
    }
}

/// The corridor sieve over the tables built for `limit`, with the residues of
/// `m_start`, is trial division: offset `j` is kept exactly when no prime `p`
/// from 5 up to the depth's reach divides `6(m_start + j) - 1` or
/// `6(m_start + j) + 1`. The reach is `min(limit, 10^6)` at `Base`,
/// `min(limit, 10^8)` at `Extended`, and `limit` at `Deep`.
pub proof fn lemma_corridor_sieve_is_trial_division(
    d: SieveData,
    limit: int,
    depth: SieveDepth,
    small: Seq<u32>,
    ext: Seq<u32>,
    deep: Seq<u32>,
    m_start: int,
    j: int,
)
    requires
        sieve_data_for(d, limit),
        0 <= limit <= u32::MAX,
        residues_of_start(d.primes_small@, small, m_start),
        residues_of_start(d.primes_ext@, ext, m_start),
        residues_of_start(d.primes_deep@, deep, m_start),
        m_start >= 0,
        j >= 0,
    ensures
        corridor_kept(d, depth, small, ext, deep, j) <==> forall|p: int|
            5 <= p <= limit && is_prime(p) && (depth == SieveDepth::Base ==> p <= 1_000_000) && (depth
                == SieveDepth::Extended ==> p <= 100_000_000) ==> !#[trigger] divides_corridor_pair(m_start + j, p),
{
    let m = m_start + j;
    lemma_tier_hits_meaning(d, limit, d.primes_small@, small, m_start, j);
    lemma_tier_hits_meaning(d, limit, d.primes_ext@, ext, m_start, j);
    lemma_tier_hits_meaning(d, limit, d.primes_deep@, deep, m_start, j);
    let reach = |p: int|
        5 <= p <= limit && is_prime(p) && (depth == SieveDepth::Base ==> p <= 1_000_000) && (depth
            == SieveDepth::Extended ==> p <= 100_000_000);
    if corridor_kept(d, depth, small, ext, deep, j) {
        assert forall|p: int| reach(p) implies !#[trigger] divides_corridor_pair(m, p) by {
            lemma_sieve_data_tiers(d, limit, p as u32);
            if p <= 1_000_000 {
                assert(d.primes_small@.contains(p as u32));
            } else if p <= 100_000_000 {
                assert(d.primes_ext@.contains(p as u32));
            } else {
                assert(d.primes_deep@.contains(p as u32));
            }
        }
    }
    if forall|p: int| reach(p) ==> !#[trigger] divides_corridor_pair(m, p) {
        assert forall|p: u32| d.primes_small@.contains(p) implies !#[trigger] divides_corridor_pair(m, p as int) by {
            lemma_sieve_data_tiers(d, limit, p);
            assert(reach(p as int));
        }
        if depth != SieveDepth::Base {
            assert forall|p: u32| d.primes_ext@.contains(p) implies !#[trigger] divides_corridor_pair(m, p as int) by {
                lemma_sieve_data_tiers(d, limit, p);
                assert(reach(p as int));
            }
        }
        if depth == SieveDepth::Deep {
            assert forall|p: u32| d.primes_deep@.contains(p) implies !#[trigger] divides_corridor_pair(m, p as int) by {
                lemma_sieve_data_tiers(d, limit, p);
                assert(reach(p as int));
            }
        }
    }
}

} // verus!

//! Sieving engine for twin-prime candidates: modular arithmetic and prime
//! generation, the fixed-`n` `k*2^n +/- 1` sieve with its validation, post-sieve
//! and exports, the corridor finder for pairs `(6m - 1, 6m + 1)` up to a limit,
//! the tiered corridor sieve of the large-digit search, and the bookkeeping of
//! the long-running drivers.
use vstd::prelude::*;

pub mod arith;
pub mod backend;
pub mod bits;
pub mod campaign;
pub mod compact;
pub mod corridor;
pub mod evaluate;
pub mod export;
pub mod finder;
pub mod fixed_n;
pub mod number_theory;
pub mod primes;
pub mod ranking;
pub mod report;
pub mod sieve_laws;
pub mod text;
pub mod validate;

verus! {

} // verus!

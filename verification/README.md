# twin_prime_engine

Sieving engine for twin-prime candidates, written in Verus: every function of
the library under `src/` carries a contract that Verus proves.

Two families of candidates are sieved:

* the fixed-`n` family `k*2^n - 1, k*2^n + 1` with `k = 3 (mod 6)`, in batches
  of `k`, with an optional exact post-sieve, exported as text or as a compact
  varint payload;
* the corridor pairs `(6m - 1, 6m + 1)`, either up to a limit (the finder, with
  its fast, high-precision and exact-range cutoffs) or in large batches near a
  digit target (the three-tier sieve of the large-digit search).

## Layout

* `src/` — the verified library.
  * `number_theory`, `arith`, `bits`, `primes`: primality, modular powers and
    inverses (with Fermat's little theorem), bit lemmas, the bitset sieve of
    Eratosthenes.
  * `fixed_n`, `sieve_laws`, `validate`: the `k*2^n +/- 1` sieve and its plans;
    the proof that a sieve bit is exactly survival of trial division, the
    post-sieve composition, and the brute-force validation (proved to find no
    mismatch).
  * `compact`, `export`, `backend`: the compact payload (with the proof that a
    reader rebuilds every `k`), the text exports, and the backends' reports.
  * `finder`, `ranking`, `evaluate`, `report`: the corridor finder, its ranking,
    the twin counts (exact-range mode is proved exact), and its JSON/CSV texts.
  * `corridor`: the tiered corridor sieve of the large-digit search.
  * `campaign`: the counters and stop decisions of the long-running loops.
  * `text`: decimal text, formulas, labels and command-line helpers.
* `tests/` — tests of the library on concrete values.
* `app/` — the command-line tools (`engine`, `campaign`, `k-search`,
  `volunteer`, `finder`): file and console I/O, threads, the big-integer
  probable-prime tests, and the floating-point estimates.

//! The text export of survivor batches: one file of `k` values, one of minus
//! formulas, one of plus formulas, and a tab-separated table of all three.
use vstd::prelude::*;
use vstd::string::*;

use crate::fixed_n::{
    batch_inputs_fit, build_k_sieve_plan, generate_survivor_batch_with_plan, ks_of_offsets, lemma_plan_primes_bounded,
    plan_fits, plan_from_primes, sieved_offsets, spec_align_k_start, spec_batch_k0, KPlan, SurvivorBatch,
};
use crate::primes::primes_below;
use crate::text::{decimal, push_decimal, spec_formula_minus, spec_formula_plus, formula_minus, formula_plus};

verus! {

/// The line of the `k` file for `k`.
pub open spec fn k_line(k: u64) -> Seq<char> {
    decimal(k as nat) + seq!['\n']
}

/// The line of the pairs table for `k`: `k`, the minus formula and the plus formula, tab-separated.
pub open spec fn pair_line(k: u64, n: u64) -> Seq<char> {
    decimal(k as nat) + seq!['\t'] + spec_formula_minus(k as nat, n as nat) + seq!['\t'] + spec_formula_plus(
        k as nat,
        n as nat,
    ) + seq!['\n']
}

/// The `k` file for the survivors `ks`.
pub open spec fn k_text(ks: Seq<u64>) -> Seq<char>
    decreases ks.len(),
{
    if ks.len() == 0 {
        seq![]
    } else {
        k_text(ks.drop_last()) + k_line(ks.last())
    }
}

/// The minus-formula file for the survivors `ks`.
pub open spec fn minus_text(ks: Seq<u64>, n: u64) -> Seq<char>
    decreases ks.len(),
{
    if ks.len() == 0 {
        seq![]
    } else {
        minus_text(ks.drop_last(), n) + spec_formula_minus(ks.last() as nat, n as nat) + seq!['\n']
    }
}

/// The plus-formula file for the survivors `ks`.
pub open spec fn plus_text(ks: Seq<u64>, n: u64) -> Seq<char>
    decreases ks.len(),
{
    if ks.len() == 0 {
        seq![]
    } else {
        plus_text(ks.drop_last(), n) + spec_formula_plus(ks.last() as nat, n as nat) + seq!['\n']
    }
}

/// The header line of the pairs table.
pub open spec fn pairs_header() -> Seq<char> {
    seq!['k', '\t', 'm', 'i', 'n', 'u', 's', '\t', 'p', 'l', 'u', 's', '\n']
}

/// The pairs table for the survivors `ks`, after its header.
pub open spec fn pairs_rows(ks: Seq<u64>, n: u64) -> Seq<char>
    decreases ks.len(),
{
    if ks.len() == 0 {
        seq![]
    } else {
        pairs_rows(ks.drop_last(), n) + pair_line(ks.last(), n)
    }
}

/// The four export texts.
#[derive(Clone, Debug)]
pub struct ExportTexts {
    pub k_lines: String,
    pub minus_lines: String,
    pub plus_lines: String,
    pub pairs_lines: String,
}

/// The export texts hold exactly the lines for `ks`.
pub open spec fn texts_for(t: ExportTexts, ks: Seq<u64>, n: u64) -> bool {
    &&& t.k_lines@ == k_text(ks)
    &&& t.minus_lines@ == minus_text(ks, n)
    &&& t.plus_lines@ == plus_text(ks, n)
    &&& t.pairs_lines@ == pairs_header() + pairs_rows(ks, n)
}

/// Empty export texts: no lines, and the pairs table's header.
pub fn new_export_texts() -> (t: ExportTexts)
    ensures
        t.k_lines@ == Seq::<char>::empty(),
        t.minus_lines@ == Seq::<char>::empty(),
        t.plus_lines@ == Seq::<char>::empty(),
        t.pairs_lines@ == pairs_header(),
{
    proof {
        reveal_strlit("k\tminus\tplus\n");
    }
    ExportTexts {
        k_lines: String::new(),
        minus_lines: String::new(),
        plus_lines: String::new(),
        pairs_lines: String::from_str("k\tminus\tplus\n"),
    }
}

/// Adds the lines for `k` to each of the export texts.
pub fn push_export_line(t: &mut ExportTexts, k: u64, n: u64)
    ensures
        final(t).k_lines@ == old(t).k_lines@ + k_line(k),
        final(t).minus_lines@ == old(t).minus_lines@ + spec_formula_minus(k as nat, n as nat) + seq!['\n'],
        final(t).plus_lines@ == old(t).plus_lines@ + spec_formula_plus(k as nat, n as nat) + seq!['\n'],
        final(t).pairs_lines@ == old(t).pairs_lines@ + pair_line(k, n),
{
    let minus_expr = formula_minus(k, n);
    let plus_expr = formula_plus(k, n);
    proof {
        reveal_strlit("\n");
        reveal_strlit("\t");
    }
    push_decimal(&mut t.k_lines, k);
    t.k_lines.append("\n");
    t.minus_lines.append(minus_expr.as_str());
    t.minus_lines.append("\n");
    t.plus_lines.append(plus_expr.as_str());
    t.plus_lines.append("\n");
    push_decimal(&mut t.pairs_lines, k);
    t.pairs_lines.append("\t");
    t.pairs_lines.append(minus_expr.as_str());
    t.pairs_lines.append("\t");
    t.pairs_lines.append(plus_expr.as_str());
    t.pairs_lines.append("\n");
    proof {
        assert(t.k_lines@ =~= old(t).k_lines@ + k_line(k));
        assert(t.minus_lines@ =~= old(t).minus_lines@ + spec_formula_minus(k as nat, n as nat) + seq!['\n']);
        assert(t.plus_lines@ =~= old(t).plus_lines@ + spec_formula_plus(k as nat, n as nat) + seq!['\n']);
        assert(t.pairs_lines@ =~= old(t).pairs_lines@ + pair_line(k, n));
    }
}

proof fn lemma_texts_push(t0: ExportTexts, t1: ExportTexts, ks: Seq<u64>, k: u64, n: u64)
    requires
        texts_for(t0, ks, n),
        t1.k_lines@ == t0.k_lines@ + k_line(k),
        t1.minus_lines@ == t0.minus_lines@ + spec_formula_minus(k as nat, n as nat) + seq!['\n'],
        t1.plus_lines@ == t0.plus_lines@ + spec_formula_plus(k as nat, n as nat) + seq!['\n'],
        t1.pairs_lines@ == t0.pairs_lines@ + pair_line(k, n),
    ensures
        texts_for(t1, ks.push(k), n),
{
    let ks1 = ks.push(k);
    assert(ks1.drop_last() =~= ks);
    assert(ks1.last() == k);
    assert(t1.pairs_lines@ =~= pairs_header() + pairs_rows(ks1, n));
    assert(t1.minus_lines@ =~= minus_text(ks1, n));
    assert(t1.plus_lines@ =~= plus_text(ks1, n));
}

/// Adds the lines of every `k` of `ks` to the export texts, in order.
fn push_export_lines(t: &mut ExportTexts, ks: &Vec<u64>, n: u64, Ghost(done): Ghost<Seq<u64>>)
    requires
        texts_for(*old(t), done, n),
    ensures
        texts_for(*final(t), done + ks@, n),
{
    let mut i: usize = 0;
    while i < ks.len()
        invariant
            i <= ks@.len(),
            texts_for(*t, done + ks@.subrange(0, i as int), n),
        decreases ks@.len() - i,
    {
        let ghost t0 = *t;
        let k = ks[i];
        push_export_line(t, k, n);
        proof {
            lemma_texts_push(t0, *t, done + ks@.subrange(0, i as int), k, n);
            assert((done + ks@.subrange(0, i as int)).push(k) =~= done + ks@.subrange(0, i + 1));
        }
        i += 1;
    }
    proof {
        assert(ks@.subrange(0, ks@.len() as int) =~= ks@);
    }
}

/// The export texts of one batch: a line per survivor in each file.
pub fn export_batch_texts(batch: &SurvivorBatch) -> (t: ExportTexts)
    ensures
        texts_for(t, batch.survivors@, batch.n),
{
    let mut t = new_export_texts();
    proof {
        assert(t.pairs_lines@ =~= pairs_header() + pairs_rows(seq![], batch.n));
    }
    let ghost none: Seq<u64> = seq![];
    push_export_lines(&mut t, &batch.survivors, batch.n, Ghost(none));
    proof {
        assert(seq![] + batch.survivors@ =~= batch.survivors@);
    }
    t
}

/// The survivors of batches `b, b + 1, ...` before `end`, stopping at the first
/// batch whose start does not fit in a `u64`.
pub open spec fn group_survivors(
    n: u64,
    aligned: int,
    k_batch_size: int,
    plan: Seq<KPlan>,
    b: int,
    end: int,
) -> Seq<u64>
    decreases end - b,
{
    let k0 = spec_batch_k0(aligned, k_batch_size, b);
    if b >= end || k0 > u64::MAX {
        seq![]
    } else {
        ks_of_offsets(k0, sieved_offsets(n as int, k0, k_batch_size, plan, k_batch_size)) + group_survivors(
            n,
            aligned,
            k_batch_size,
            plan,
            b + 1,
            end,
        )
    }
}

proof fn lemma_sieved_offsets_len(n: int, k_start: int, k_count: int, plan: Seq<KPlan>, m: int)
    requires
        0 <= m,
    ensures
        sieved_offsets(n, k_start, k_count, plan, m).len() <= m,
    decreases m,
{
    if m > 0 {
        lemma_sieved_offsets_len(n, k_start, k_count, plan, m - 1);
    }
}

/// A group of exported batches: the texts and the number of survivors.
pub struct ExportGroup {
    pub texts: ExportTexts,
    pub total_survivors: u64,
}

/// Sieves batches `batch_start .. batch_start + batch_count` (stopping at the
/// first whose start does not fit in a `u64`) with the plan up to `sieve_limit`,
/// and builds the export texts of all their survivors.
pub fn export_group(
    n: u64,
    k_start: u64,
    k_batch_size: usize,
    sieve_limit: usize,
    batch_start: u64,
    batch_count: u64,
) -> (g: ExportGroup)
    requires
        sieve_limit <= u32::MAX,
        sieve_limit + 0x10000 <= usize::MAX,
        k_batch_size + 63 <= usize::MAX,
        k_batch_size + sieve_limit <= usize::MAX,
        batch_start + batch_count <= u64::MAX,
        batch_count * k_batch_size <= u64::MAX,
        forall|b: int| batch_start <= b < batch_start + batch_count ==> #[trigger] spec_batch_k0(
            spec_align_k_start(k_start as int),
            k_batch_size as int,
            b,
        ) <= u128::MAX,
        forall|b: int| batch_start <= b < batch_start + batch_count ==> #[trigger] spec_batch_k0(
            spec_align_k_start(k_start as int),
            k_batch_size as int,
            b,
        ) <= u64::MAX ==> spec_batch_k0(spec_align_k_start(k_start as int), k_batch_size as int, b) + 6
            * k_batch_size <= u64::MAX + 6,
    ensures
        ({
            let ks = group_survivors(
                n,
                spec_align_k_start(k_start as int),
                k_batch_size as int,
                plan_from_primes(n as int, primes_below(sieve_limit + 1), 0),
                batch_start as int,
                batch_start + batch_count,
            );
            &&& texts_for(g.texts, ks, n)
            &&& g.total_survivors == ks.len()
        }),
{
    let plan = build_k_sieve_plan(n, sieve_limit);
    proof {
        lemma_plan_primes_bounded(n as int, sieve_limit as int, 0);
        assert(plan_fits(plan@, k_batch_size as int));
    }
    let ghost aligned = spec_align_k_start(k_start as int);
    let ghost end = batch_start + batch_count;
    let ghost all = group_survivors(n, aligned, k_batch_size as int, plan@, batch_start as int, end);
    let mut texts = new_export_texts();
    let mut total_survivors: u64 = 0;
    let ghost mut done: Seq<u64> = seq![];
    proof {
        assert(texts.pairs_lines@ =~= pairs_header() + pairs_rows(seq![], n));
        assert(all =~= done + group_survivors(n, aligned, k_batch_size as int, plan@, batch_start as int, end));
    }
    let mut batch_index = batch_start;
    let mut stopped = false;
    while !stopped && batch_index < batch_start + batch_count
        invariant
            batch_start <= batch_index <= end,
            end == batch_start + batch_count,
            end <= u64::MAX,
            aligned == spec_align_k_start(k_start as int),
            k_batch_size + 63 <= usize::MAX,
            plan_fits(plan@, k_batch_size as int),
            forall|b: int| batch_start <= b < end ==> #[trigger] spec_batch_k0(aligned, k_batch_size as int, b)
                <= u128::MAX,
            forall|b: int| batch_start <= b < end ==> #[trigger] spec_batch_k0(aligned, k_batch_size as int, b)
                <= u64::MAX ==> spec_batch_k0(aligned, k_batch_size as int, b) + 6 * k_batch_size <= u64::MAX + 6,
            !stopped ==> all == done + group_survivors(n, aligned, k_batch_size as int, plan@, batch_index as int, end),
            stopped ==> all == done,
            texts_for(texts, done, n),
            total_survivors == done.len(),
            batch_count * k_batch_size <= u64::MAX,
            done.len() <= k_batch_size * (batch_index - batch_start),
        decreases end - batch_index + if stopped { 0int } else { 1int },
    {
        proof {
            assert(batch_inputs_fit(k_start as int, k_batch_size as int, batch_index as int, plan@));
        }
        let found = generate_survivor_batch_with_plan(n, k_start, k_batch_size, sieve_limit, batch_index, plan.as_slice());
        match found {
            None => {
                proof {
                    assert(group_survivors(n, aligned, k_batch_size as int, plan@, batch_index as int, end) =~= seq![]);
                    assert(all =~= done);
                }
                stopped = true;
            },
            Some(batch) => {
                let ghost batch_ks = batch.survivors@;
                proof {
                    let k0 = spec_batch_k0(aligned, k_batch_size as int, batch_index as int);
                    assert(group_survivors(n, aligned, k_batch_size as int, plan@, batch_index as int, end) == batch_ks
                        + group_survivors(n, aligned, k_batch_size as int, plan@, batch_index + 1, end));
                    lemma_sieved_offsets_len(n as int, k0, k_batch_size as int, plan@, k_batch_size as int);
                    assert(batch_ks.len() <= k_batch_size);
                    assert(k_batch_size * (batch_index - batch_start) + k_batch_size == k_batch_size * (batch_index + 1
                        - batch_start)) by (nonlinear_arith);
                    assert(k_batch_size * (batch_index + 1 - batch_start) <= batch_count * k_batch_size) by (nonlinear_arith)
                        requires batch_index + 1 - batch_start <= batch_count, k_batch_size >= 0;
                    assert(total_survivors + batch_ks.len() <= u64::MAX);
                }
                push_export_lines(&mut texts, &batch.survivors, n, Ghost(done));
                let count = batch.survivors.len() as u64;
                total_survivors = total_survivors + count;
                proof {
                    assert(all =~= (done + batch_ks) + group_survivors(
                        n,
                        aligned,
                        k_batch_size as int,
                        plan@,
                        batch_index + 1,
                        end,
                    ));
                    done = done + batch_ks;
                }
                batch_index += 1;
            },
        }
    }
    proof {
        if !stopped {
            assert(group_survivors(n, aligned, k_batch_size as int, plan@, batch_index as int, end) =~= seq![]);
            assert(all =~= done);
        }
    }
    ExportGroup { texts, total_survivors }
}

} // verus!

//! The decisions of the long-running drivers: the fixed-`n` campaign, the
//! continuous search and export loops, and the large-digit search. Each loop
//! keeps its counters here and asks here whether to go on; the caller does the
//! timing, the primality tests and the file work.
use vstd::arithmetic::div_mod::{lemma_fundamental_div_mod, lemma_mod_bound};
use vstd::prelude::*;
use vstd::string::*;

use crate::fixed_n::{
    batch_inputs_fit, build_k_sieve_plan_range, filter_survivors_with_plan, generate_survivor_batch_with_plan,
    ks_of_offsets, plan_from_primes, plan_primes_positive, sieved_offsets, spec_align_k_start, spec_batch_k0,
    survivors_of, KPlan, SurvivorBatch,
};
use crate::primes::primes_below;

verus! {

/// What a campaign runs: the family, the batches, the sieve limits and the backend.
#[derive(Clone, Debug)]
pub struct CampaignConfig {
    pub n: u64,
    pub k_start: u64,
    pub k_batch_size: usize,
    pub sieve_limit: usize,
    pub post_sieve_limit: Option<usize>,
    pub backend: String,
    pub export_dir: Option<String>,
}

/// Where a campaign stands.
#[derive(Clone, Copy, Debug)]
pub struct CampaignProgress {
    pub next_batch: u64,
    pub batches_completed: u64,
    pub total_base_survivors: u64,
    pub total_survivors: u64,
    pub total_hits: u64,
}

/// Under the limit, or no limit at all.
pub open spec fn below_limit(count: u64, limit: Option<u64>) -> bool {
    match limit {
        Some(l) => count < l,
        None => true,
    }
}

fn under_limit(count: u64, limit: Option<u64>) -> (r: bool)
    ensures
        r == below_limit(count, limit),
{
    match limit {
        Some(l) => count < l,
        None => true,
    }
}

/// A fresh campaign starting at `start_batch`.
pub fn start_campaign(start_batch: u64) -> (p: CampaignProgress)
    ensures
        p == (CampaignProgress {
            next_batch: start_batch,
            batches_completed: 0,
            total_base_survivors: 0,
            total_survivors: 0,
            total_hits: 0,
        }),
{
    CampaignProgress {
        next_batch: start_batch,
        batches_completed: 0,
        total_base_survivors: 0,
        total_survivors: 0,
        total_hits: 0,
    }
}

/// Whether the campaign runs another batch (within its time budget, which the
/// caller checks): fewer batches than `max_batches` and fewer hits than
/// `stop_after_hits`, where given.
pub fn campaign_should_continue(p: &CampaignProgress, max_batches: Option<u64>, stop_after_hits: Option<u64>) -> (r:
    bool)
    ensures
        r == (below_limit(p.batches_completed, max_batches) && below_limit(p.total_hits, stop_after_hits)),
{
    under_limit(p.batches_completed, max_batches) && under_limit(p.total_hits, stop_after_hits)
}

/// The post-sieve plan: the primes above the base limit up to the post limit,
/// when a post limit above the base limit is set.
pub fn post_plan_for(config: &CampaignConfig) -> (r: Option<Vec<KPlan>>)
    requires
        config.post_sieve_limit matches Some(l) ==> l <= u32::MAX && l + 0x10000 <= usize::MAX,
    ensures
        match config.post_sieve_limit {
            Some(l) => if l > config.sieve_limit {
                r matches Some(plan) && plan@ == plan_from_primes(
                    config.n as int,
                    primes_below(l + 1),
                    config.sieve_limit as int,
                )
            } else {
                r is None
            },
            None => r is None,
        },
{
    match config.post_sieve_limit {
        Some(limit) => {
            if limit > config.sieve_limit {
                Some(build_k_sieve_plan_range(config.n, config.sieve_limit, limit))
            } else {
                None
            }
        },
        None => None,
    }
}

/// One campaign batch: batch `next_batch` sieved with `plan`, then cut further
/// with the post-sieve plan when there is one (the batch then carries the post
/// limit as its sieve limit). Also gives the survivor count before the post-sieve.
/// `None` when the batch start does not fit in a `u64`.
pub fn campaign_batch(config: &CampaignConfig, next_batch: u64, plan: &[KPlan], post_plan: &Option<Vec<KPlan>>) -> (r:
    Option<(SurvivorBatch, usize)>)
    requires
        batch_inputs_fit(config.k_start as int, config.k_batch_size as int, next_batch as int, plan@),
        post_plan matches Some(pp) ==> plan_primes_positive(pp@),
    ensures
        ({
            let aligned = spec_align_k_start(config.k_start as int);
            let k0 = spec_batch_k0(aligned, config.k_batch_size as int, next_batch as int);
            let base = ks_of_offsets(
                k0,
                sieved_offsets(config.n as int, k0, config.k_batch_size as int, plan@, config.k_batch_size as int),
            );
            match r {
                None => k0 > u64::MAX,
                Some((b, base_count)) => {
                    &&& k0 <= u64::MAX
                    &&& base_count == base.len()
                    &&& b.n == config.n
                    &&& b.k_start == aligned
                    &&& b.k_batch_size == config.k_batch_size
                    &&& b.batch_index == next_batch
                    &&& b.batch_k0 == k0
                    &&& b.total_input_k == config.k_batch_size
                    &&& match post_plan {
                        Some(pp) => {
                            &&& b.survivors@ == survivors_of(config.n as int, base, pp@)
                            &&& b.sieve_limit == match config.post_sieve_limit {
                                Some(l) => l,
                                None => config.sieve_limit,
                            }
                        },
                        None => b.survivors@ == base && b.sieve_limit == config.sieve_limit,
                    }
                },
            }
        }),
{
    let found = generate_survivor_batch_with_plan(
        config.n,
        config.k_start,
        config.k_batch_size,
        config.sieve_limit,
        next_batch,
        plan,
    );
    match found {
        None => None,
        Some(mut batch) => {
            let base_survivors = batch.survivors.len();
            match post_plan {
                Some(extra) => {
                    batch.survivors = filter_survivors_with_plan(config.n, batch.survivors.as_slice(), extra.as_slice());
                    batch.sieve_limit = match config.post_sieve_limit {
                        Some(l) => l,
                        None => config.sieve_limit,
                    };
                },
                None => {},
            }
            Some((batch, base_survivors))
        },
    }
}

/// Records a processed campaign batch: its survivors before and after the
/// post-sieve and its hits.
pub fn record_campaign_batch(p: &mut CampaignProgress, base_survivors: usize, survivors: usize, hits: usize)
    requires
        old(p).total_base_survivors + base_survivors <= u64::MAX,
        old(p).total_survivors + survivors <= u64::MAX,
        old(p).total_hits + hits <= u64::MAX,
        old(p).next_batch < u64::MAX,
        old(p).batches_completed < u64::MAX,
    ensures
        final(p).total_base_survivors == old(p).total_base_survivors + base_survivors,
        final(p).total_survivors == old(p).total_survivors + survivors,
        final(p).total_hits == old(p).total_hits + hits,
        final(p).next_batch == old(p).next_batch + 1,
        final(p).batches_completed == old(p).batches_completed + 1,
{
    p.total_base_survivors = p.total_base_survivors + base_survivors as u64;
    p.total_survivors = p.total_survivors + survivors as u64;
    p.total_hits = p.total_hits + hits as u64;
    p.next_batch = p.next_batch + 1;
    p.batches_completed = p.batches_completed + 1;
}

/// Where a fixed-`n` search stands.
#[derive(Clone, Copy, Debug)]
pub struct SearchProgress {
    pub batch_index: u64,
    pub batches_completed: u64,
    pub total_sieved: u64,
    pub tested_plus: u64,
    pub tested_minus: u64,
    pub total_finds: u64,
}

/// The search's counters are ordered: no more finds than minus-side tests, no
/// more minus-side tests than plus-side tests (the minus side is tested only
/// after the plus side passed), and no more plus-side tests than survivors.
pub open spec fn search_counts_ordered(p: SearchProgress) -> bool {
    p.total_finds <= p.tested_minus <= p.tested_plus <= p.total_sieved
}

/// A fresh search starting at `start_batch`.
pub fn start_search(start_batch: u64) -> (p: SearchProgress)
    ensures
        search_counts_ordered(p),
        p == (SearchProgress {
            batch_index: start_batch,
            batches_completed: 0,
            total_sieved: 0,
            tested_plus: 0,
            tested_minus: 0,
            total_finds: 0,
        }),
{
    SearchProgress {
        batch_index: start_batch,
        batches_completed: 0,
        total_sieved: 0,
        tested_plus: 0,
        tested_minus: 0,
        total_finds: 0,
    }
}

/// Whether the search sieves another batch (within its time budget, which the
/// caller checks): fewer batches than `max_batches` and fewer finds than
/// `stop_after_finds`, where given.
pub fn search_should_continue(p: &SearchProgress, max_batches: Option<u64>, stop_after_finds: Option<u64>) -> (r: bool)
    ensures
        r == (below_limit(p.batches_completed, max_batches) && below_limit(p.total_finds, stop_after_finds)),
{
    under_limit(p.batches_completed, max_batches) && under_limit(p.total_finds, stop_after_finds)
}

/// Records a searched batch: its survivors, the tests run on each side, and
/// the pairs found. Each survivor is tested at most once on the plus side, the
/// minus side only after the plus side, and a find needs both; so the
/// counters stay ordered.
pub fn record_search_batch(p: &mut SearchProgress, survivors: usize, plus_tested: u64, minus_tested: u64, finds: usize)
    requires
        finds <= minus_tested <= plus_tested <= survivors,
        old(p).total_sieved + survivors <= u64::MAX,
        old(p).tested_plus + plus_tested <= u64::MAX,
        old(p).tested_minus + minus_tested <= u64::MAX,
        old(p).total_finds + finds <= u64::MAX,
        old(p).batch_index < u64::MAX,
        old(p).batches_completed < u64::MAX,
    ensures
        final(p).total_sieved == old(p).total_sieved + survivors,
        final(p).tested_plus == old(p).tested_plus + plus_tested,
        final(p).tested_minus == old(p).tested_minus + minus_tested,
        final(p).total_finds == old(p).total_finds + finds,
        final(p).batch_index == old(p).batch_index + 1,
        final(p).batches_completed == old(p).batches_completed + 1,
        search_counts_ordered(*old(p)) ==> search_counts_ordered(*final(p)),
{
    p.total_sieved = p.total_sieved + survivors as u64;
    p.tested_plus = p.tested_plus + plus_tested;
    p.tested_minus = p.tested_minus + minus_tested;
    p.total_finds = p.total_finds + finds as u64;
    p.batch_index = p.batch_index + 1;
    p.batches_completed = p.batches_completed + 1;
}

/// Where a continuous export stands.
#[derive(Clone, Copy, Debug)]
pub struct ExportProgress {
    pub next_batch: u64,
    pub groups_completed: u64,
    pub total_survivors: u64,
}

/// Whether the export writes another group (within its time budget, which the
/// caller checks): fewer groups than `max_groups`, where given.
pub fn export_should_continue(p: &ExportProgress, max_groups: Option<u64>) -> (r: bool)
    ensures
        r == below_limit(p.groups_completed, max_groups),
{
    under_limit(p.groups_completed, max_groups)
}

/// Records an exported group of `group_batches` batches with `survivors` survivors.
pub fn record_export_group(p: &mut ExportProgress, group_batches: u64, survivors: u64)
    requires
        old(p).next_batch + group_batches <= u64::MAX,
        old(p).groups_completed < u64::MAX,
        old(p).total_survivors + survivors <= u64::MAX,
    ensures
        final(p).next_batch == old(p).next_batch + group_batches,
        final(p).groups_completed == old(p).groups_completed + 1,
        final(p).total_survivors == old(p).total_survivors + survivors,
{
    p.total_survivors = p.total_survivors + survivors;
    p.next_batch = p.next_batch + group_batches;
    p.groups_completed = p.groups_completed + 1;
}

/// The batch offsets of one round of the large-digit search: worker `i` starts
/// at `(round_base + i * stride) mod m_range`.
pub fn round_offsets(round_base: u64, num_workers: usize, stride: u64, m_range: u64) -> (out: Vec<u64>)
    requires
        m_range > 0,
        round_base + num_workers * stride <= u64::MAX,
    ensures
        out@.len() == num_workers,
        forall|i: int| 0 <= i < num_workers ==> #[trigger] out@[i] == (round_base + i * stride) % (m_range as int),
{
    let mut out: Vec<u64> = Vec::new();
    let mut i: usize = 0;
    while i < num_workers
        invariant
            i <= num_workers,
            m_range > 0,
            round_base + num_workers * stride <= u64::MAX,
            out@.len() == i,
            forall|j: int| 0 <= j < i ==> #[trigger] out@[j] == (round_base + j * stride) % (m_range as int),
        decreases num_workers - i,
    {
        proof {
            assert(i * stride <= num_workers * stride) by (nonlinear_arith)
                requires i <= num_workers, stride >= 0;
        }
        let offset = (round_base + (i as u64) * stride) % m_range;
        out.push(offset);
        i += 1;
    }
    out
}

/// The counts of the large-digit search.
#[derive(Clone, Copy, Debug)]
pub struct TwinSearchTally {
    pub total_raw: u64,
    pub total_surv: u64,
    pub total_tested: u64,
    pub batches: u32,
}

/// The tally's counts are ordered: no more tested than sieved survivors, no
/// more survivors than raw candidates.
pub open spec fn tally_ordered(t: TwinSearchTally) -> bool {
    t.total_tested <= t.total_surv <= t.total_raw
}

/// A fresh tally.
pub fn start_twin_tally() -> (t: TwinSearchTally)
    ensures
        t == (TwinSearchTally { total_raw: 0, total_surv: 0, total_tested: 0, batches: 0 }),
        tally_ordered(t),
{
    TwinSearchTally { total_raw: 0, total_surv: 0, total_tested: 0, batches: 0 }
}

/// Records one sieved and tested batch of the large-digit search: `raw`
/// candidates, `surv` of them left by the sieve, `tested` of those tested.
pub fn record_twin_batch(t: &mut TwinSearchTally, raw: u64, surv: u64, tested: u64)
    requires
        tested <= surv <= raw,
        old(t).total_raw + raw <= u64::MAX,
        old(t).total_surv + surv <= u64::MAX,
        old(t).total_tested + tested <= u64::MAX,
        old(t).batches < u32::MAX,
    ensures
        final(t).total_raw == old(t).total_raw + raw,
        final(t).total_surv == old(t).total_surv + surv,
        final(t).total_tested == old(t).total_tested + tested,
        final(t).batches == old(t).batches + 1,
        tally_ordered(*old(t)) ==> tally_ordered(*final(t)),
{
    t.total_raw = t.total_raw + raw;
    t.total_surv = t.total_surv + surv;
    t.total_tested = t.total_tested + tested;
    t.batches = t.batches + 1;
}

/// The first `count` characters of `s` (all of them when shorter).
pub open spec fn head_chars(s: Seq<char>, count: int) -> Seq<char> {
    if s.len() <= count { s } else { s.subrange(0, count) }
}

/// The last `count` characters of `s` (all of them when shorter).
pub open spec fn tail_chars(s: Seq<char>, count: int) -> Seq<char> {
    if s.len() <= count { s } else { s.subrange(s.len() - count, s.len() as int) }
}

/// The first and the last 40 characters of a number's digits.
pub fn digit_head_tail(digits: &str) -> (r: (String, String))
    ensures
        r.0@ == head_chars(digits@, 40),
        r.1@ == tail_chars(digits@, 40),
{
    let len = digits.unicode_len();
    let head_end = if len < 40 { len } else { 40 };
    let tail_start = if len > 40 { len - 40 } else { 0 };
    let head = String::from_str(digits.substring_char(0, head_end));
    let tail = String::from_str(digits.substring_char(tail_start, len));
    proof {
        assert(digits@.subrange(0, len as int) =~= digits@);
    }
    (head, tail)
}

/// The batches of one round do not overlap: when the workers' batches fit in the
/// range (`num_workers * stride <= m_range`), any two round offsets are at least
/// `stride` apart, so the batches `[offset, offset + stride)` are disjoint.
pub proof fn lemma_round_batches_disjoint(round_base: int, num_workers: int, stride: int, m_range: int, i: int, j: int)
    requires
        m_range > 0,
        stride >= 0,
        round_base >= 0,
        num_workers * stride <= m_range,
        0 <= i < j < num_workers,
    ensures
        ({
            let oi = (round_base + i * stride) % m_range;
            let oj = (round_base + j * stride) % m_range;
            oi + stride <= oj || oj + stride <= oi
        }),
{
    let a = round_base + i * stride;
    let b = round_base + j * stride;
    lemma_fundamental_div_mod(a, m_range);
    lemma_fundamental_div_mod(b, m_range);
    lemma_mod_bound(a, m_range);
    lemma_mod_bound(b, m_range);
    let oi = a % m_range;
    let oj = b % m_range;
    let qa = a / m_range;
    let qb = b / m_range;
    let d = (j - i) * stride;
    assert(b - a == d) by (nonlinear_arith)
        requires b == round_base + j * stride, a == round_base + i * stride, d == (j - i) * stride;
    assert(stride <= d) by (nonlinear_arith)
        requires d == (j - i) * stride, j - i >= 1, stride >= 0;
    assert(d + stride <= m_range) by (nonlinear_arith)
        requires d == (j - i) * stride, j < num_workers, i >= 0, num_workers * stride <= m_range, stride >= 0;
    assert(oj - oi == d - m_range * (qb - qa)) by (nonlinear_arith)
        requires a == m_range * qa + oi, b == m_range * qb + oj, b - a == d;
    let k = qb - qa;
    if k <= -1 {
        assert(m_range * k <= -m_range) by (nonlinear_arith)
            requires k <= -1, m_range > 0;
    } else if k >= 2 {
        assert(m_range * k >= 2 * m_range) by (nonlinear_arith)
            requires k >= 2, m_range > 0;
    } else if k == 1 {
        assert(m_range * k == m_range) by (nonlinear_arith)
            requires k == 1;
    } else {
        assert(m_range * k == 0) by (nonlinear_arith)
            requires k == 0;
    }
}

} // verus!

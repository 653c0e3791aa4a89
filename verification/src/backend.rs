//! What the batch backends report: the result record of a processed batch, and
//! the two export backends' file names and results.
use vstd::prelude::*;
use vstd::string::*;

use crate::fixed_n::SurvivorBatch;
use crate::campaign::{digit_head_tail, head_chars, tail_chars};
use crate::text::{batch_stem, decimal, decimal_string, push_decimal, spec_batch_stem};
use vstd::arithmetic::power2::pow2;

verus! {

/// A pair found probably prime by a backend, with the heads and tails of its digits.
#[derive(Clone, Debug)]
pub struct ProbablePrimeHit {
    pub k: String,
    pub digits: usize,
    pub plus_mode: String,
    pub p_head: String,
    pub p_tail: String,
    pub q_head: String,
    pub q_tail: String,
}

/// A file a backend wrote: its kind and its file name.
#[derive(Clone, Debug)]
pub struct BackendArtifact {
    pub kind: String,
    pub label: String,
}

/// What a backend reports for one batch.
#[derive(Clone, Debug)]
pub struct BackendBatchResult {
    pub backend: String,
    pub batch_index: u64,
    pub batch_k0: String,
    pub survivors_in: usize,
    pub plus_tested: u64,
    pub minus_tested: u64,
    pub hit_count: usize,
    pub hits: Vec<ProbablePrimeHit>,
    pub artifacts: Vec<BackendArtifact>,
    pub notes: Vec<String>,
    pub partial: bool,
}

/// The fields every export backend's result shares: the batch, its survivors in,
/// nothing tested, no hits, and not partial.
pub open spec fn export_result_base(r: BackendBatchResult, batch: SurvivorBatch) -> bool {
    &&& r.batch_index == batch.batch_index
    &&& r.batch_k0@ == decimal(batch.batch_k0 as nat)
    &&& r.survivors_in == batch.survivors@.len()
    &&& r.plus_tested == 0
    &&& r.minus_tested == 0
    &&& r.hit_count == 0
    &&& r.hits@.len() == 0
    &&& !r.partial
}

/// An artifact with the given kind and label.
pub open spec fn artifact_is(a: BackendArtifact, kind: Seq<char>, label: Seq<char>) -> bool {
    a.kind@ == kind && a.label@ == label
}

fn artifact(kind: &str, label: String) -> (a: BackendArtifact)
    ensures
        a.kind@ == kind@,
        a.label@ == label@,
{
    BackendArtifact { kind: String::from_str(kind), label }
}

/// The file name of the batch stem with an extension added.
fn stem_with(n: u64, batch_index: u64, ext: &str) -> (s: String)
    ensures
        s@ == spec_batch_stem(n as nat, batch_index as nat) + ext@,
{
    let mut s = batch_stem(n, batch_index);
    s.append(ext);
    s
}

/// The compact export backend: a metadata file and a varint payload per batch.
pub struct CompactExportBackend {
    pub output_dir: String,
}

impl CompactExportBackend {
    /// The backend's name.
    pub fn name(&self) -> (s: &'static str)
        ensures
            s@ == "compact_export"@,
    {
        "compact_export"
    }

    /// The result of exporting `batch`: the metadata and payload files named
    /// after the batch stem, and the notes on the compact format.
    pub fn batch_result(&self, batch: &SurvivorBatch) -> (r: BackendBatchResult)
        ensures
            export_result_base(r, *batch),
            r.backend@ == "compact_export"@,
            r.artifacts@.len() == 2,
            artifact_is(
                r.artifacts@[0],
                "metadata"@,
                spec_batch_stem(batch.n as nat, batch.batch_index as nat) + ".meta.json"@,
            ),
            artifact_is(
                r.artifacts@[1],
                "kdelta_payload"@,
                spec_batch_stem(batch.n as nat, batch.batch_index as nat) + ".kdelta.bin"@,
            ),
            r.notes@.len() == 2,
            r.notes@[0]@ == "Compact survivor export for external large-PRP backend"@,
            r.notes@[1]@ == "Stores k offsets only; formulas are reconstructed downstream"@,
    {
        let meta = artifact("metadata", stem_with(batch.n, batch.batch_index, ".meta.json"));
        let payload = artifact("kdelta_payload", stem_with(batch.n, batch.batch_index, ".kdelta.bin"));
        let mut artifacts: Vec<BackendArtifact> = Vec::new();
        artifacts.push(meta);
        artifacts.push(payload);
        let mut notes: Vec<String> = Vec::new();
        notes.push(String::from_str("Compact survivor export for external large-PRP backend"));
        notes.push(String::from_str("Stores k offsets only; formulas are reconstructed downstream"));
        BackendBatchResult {
            backend: String::from_str(self.name()),
            batch_index: batch.batch_index,
            batch_k0: decimal_string(batch.batch_k0),
            survivors_in: batch.survivors.len(),
            plus_tested: 0,
            minus_tested: 0,
            hit_count: 0,
            hits: Vec::new(),
            artifacts,
            notes,
            partial: false,
        }
    }
}

/// The export-files backend: the `k`, minus, plus and pairs files per batch.
pub struct ExportFilesBackend {
    pub output_dir: String,
}

impl ExportFilesBackend {
    /// The backend's name.
    pub fn name(&self) -> (s: &'static str)
        ensures
            s@ == "export_files"@,
    {
        "export_files"
    }

    /// The result of exporting `batch`: the four files named after the batch stem.
    pub fn batch_result(&self, batch: &SurvivorBatch) -> (r: BackendBatchResult)
        ensures
            export_result_base(r, *batch),
            r.backend@ == "export_files"@,
            r.artifacts@.len() == 4,
            artifact_is(
                r.artifacts@[0],
                "k_list"@,
                spec_batch_stem(batch.n as nat, batch.batch_index as nat) + ".k.txt"@,
            ),
            artifact_is(
                r.artifacts@[1],
                "minus_formulas"@,
                spec_batch_stem(batch.n as nat, batch.batch_index as nat) + ".minus.txt"@,
            ),
            artifact_is(
                r.artifacts@[2],
                "plus_formulas"@,
                spec_batch_stem(batch.n as nat, batch.batch_index as nat) + ".plus.txt"@,
            ),
            artifact_is(
                r.artifacts@[3],
                "pairs_tsv"@,
                spec_batch_stem(batch.n as nat, batch.batch_index as nat) + ".pairs.tsv"@,
            ),
            r.notes@.len() == 1,
            r.notes@[0]@ == "Batch exported for external backend"@,
    {
        let mut artifacts: Vec<BackendArtifact> = Vec::new();
        artifacts.push(artifact("k_list", stem_with(batch.n, batch.batch_index, ".k.txt")));
        artifacts.push(artifact("minus_formulas", stem_with(batch.n, batch.batch_index, ".minus.txt")));
        artifacts.push(artifact("plus_formulas", stem_with(batch.n, batch.batch_index, ".plus.txt")));
        artifacts.push(artifact("pairs_tsv", stem_with(batch.n, batch.batch_index, ".pairs.tsv")));
        let mut notes: Vec<String> = Vec::new();
        notes.push(String::from_str("Batch exported for external backend"));
        BackendBatchResult {
            backend: String::from_str(self.name()),
            batch_index: batch.batch_index,
            batch_k0: decimal_string(batch.batch_k0),
            survivors_in: batch.survivors.len(),
            plus_tested: 0,
            minus_tested: 0,
            hit_count: 0,
            hits: Vec::new(),
            artifacts,
            notes,
            partial: false,
        }
    }
}

/// The backend that tests each survivor on this machine.
pub struct LocalGmpBackend;

/// `k*2^n + 1` is a Proth number: `k` odd and `k < 2^n`.
pub open spec fn is_proth(k: u64, n: u64) -> bool {
    k % 2 == 1 && k < pow2(n as nat)
}

/// Whether `k*2^n + 1` is a Proth number (`k` odd, `k < 2^n`), so that a Proth
/// witness can settle it.
pub fn proth_applies(k: u64, n: u64) -> (r: bool)
    ensures
        r == is_proth(k, n),
{
    if k & 1 != 1 {
        proof {
            assert(k & 1 != 1 ==> k % 2 == 0) by (bit_vector);
        }
        return false;
    }
    proof {
        assert(k & 1 == 1 ==> k % 2 == 1) by (bit_vector);
    }
    if n >= 64 {
        proof {
            vstd::arithmetic::power2::lemma2_to64();
            if n > 64 {
                vstd::arithmetic::power2::lemma_pow2_strictly_increases(64, n as nat);
            }
        }
        return true;
    }
    proof {
        vstd::bits::lemma_u64_shr_is_div(k, n);
        vstd::arithmetic::power2::lemma_pow2_pos(n as nat);
        vstd::arithmetic::div_mod::lemma_fundamental_div_mod(k as int, pow2(n as nat) as int);
        if k < pow2(n as nat) {
            vstd::arithmetic::div_mod::lemma_small_mod(k as nat, pow2(n as nat));
            vstd::arithmetic::div_mod::lemma_div_of0(pow2(n as nat) as int);
            vstd::arithmetic::div_mod::lemma_basic_div(k as int, pow2(n as nat) as int);
        }
    }
    k >> n == 0
}

/// The label of a plus side settled by a Proth witness.
pub fn proth_mode_label(base: u32) -> (s: String)
    ensures
        s@ == "proth_base_"@ + decimal(base as nat),
{
    let mut s = String::from_str("proth_base_");
    push_decimal(&mut s, base as u64);
    s
}

/// The record of a pair found probably prime: `k`, the larger digit count, how
/// the plus side was settled (`bpsw_fallback` without a Proth witness), and the
/// first and last 40 digits of each member.
pub fn probable_prime_hit(k: u64, plus_mode: Option<String>, p_digits: &str, q_digits: &str) -> (h: ProbablePrimeHit)
    ensures
        h.k@ == decimal(k as nat),
        h.digits == if p_digits@.len() >= q_digits@.len() { p_digits@.len() } else { q_digits@.len() },
        h.plus_mode@ == match plus_mode {
            Some(m) => m@,
            None => "bpsw_fallback"@,
        },
        h.p_head@ == head_chars(p_digits@, 40),
        h.p_tail@ == tail_chars(p_digits@, 40),
        h.q_head@ == head_chars(q_digits@, 40),
        h.q_tail@ == tail_chars(q_digits@, 40),
{
    let p_len = p_digits.unicode_len();
    let q_len = q_digits.unicode_len();
    let (p_head, p_tail) = digit_head_tail(p_digits);
    let (q_head, q_tail) = digit_head_tail(q_digits);
    let mode = match plus_mode {
        Some(m) => m,
        None => String::from_str("bpsw_fallback"),
    };
    ProbablePrimeHit {
        k: decimal_string(k),
        digits: if p_len >= q_len { p_len } else { q_len },
        plus_mode: mode,
        p_head,
        p_tail,
        q_head,
        q_tail,
    }
}

impl LocalGmpBackend {
    /// The backend's name.
    pub fn name(&self) -> (s: &'static str)
        ensures
            s@ == "local_gmp"@,
    {
        "local_gmp"
    }

    /// The result of testing `batch`: the tests run, the hits, and whether the
    /// time budget ran out before every survivor was tested. Each survivor is
    /// tested at most once on the plus side, the minus side only after the
    /// plus side, a hit needs both, and a run not cut short tests every survivor.
    pub fn batch_result(
        &self,
        batch: &SurvivorBatch,
        plus_tested: u64,
        minus_tested: u64,
        hits: Vec<ProbablePrimeHit>,
        partial: bool,
    ) -> (r: BackendBatchResult)
        requires
            hits@.len() <= minus_tested <= plus_tested <= batch.survivors@.len(),
            partial == (plus_tested < batch.survivors@.len()),
        ensures
            r.hit_count <= r.minus_tested <= r.plus_tested <= r.survivors_in,
            !r.partial ==> r.plus_tested == r.survivors_in,
            r.backend@ == "local_gmp"@,
            r.batch_index == batch.batch_index,
            r.batch_k0@ == decimal(batch.batch_k0 as nat),
            r.survivors_in == batch.survivors@.len(),
            r.plus_tested == plus_tested,
            r.minus_tested == minus_tested,
            r.hit_count == hits@.len(),
            r.hits@ == hits@,
            r.artifacts@.len() == 0,
            r.notes@.len() == 1,
            r.notes@[0]@ == "Local GMP/BPSW backend"@,
            r.partial == partial,
    {
        let hit_count = hits.len();
        let mut notes: Vec<String> = Vec::new();
        notes.push(String::from_str("Local GMP/BPSW backend"));
        BackendBatchResult {
            backend: String::from_str(self.name()),
            batch_index: batch.batch_index,
            batch_k0: decimal_string(batch.batch_k0),
            survivors_in: batch.survivors.len(),
            plus_tested,
            minus_tested,
            hit_count,
            hits,
            artifacts: Vec::new(),
            notes,
            partial,
        }
    }
}

} // verus!

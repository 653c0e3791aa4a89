//! The compact survivor payload: the survivor count as a little-endian `u64`,
//! then the steps `(k - batch_k0) / 6` as varint-encoded deltas. A downstream
//! reader rebuilds every `k` from the payload and the batch start.
use vstd::prelude::*;

use crate::fixed_n::{ks_of_offsets, sieved_offsets, KPlan, SurvivorBatch};

verus! {

/// The varint encoding of `v`: seven bits per byte, low bits first, the high
/// bit set on every byte but the last.
pub open spec fn varint(v: nat) -> Seq<u8>
    decreases v,
{
    if v < 128 {
        seq![v as u8]
    } else {
        seq![(v % 128 + 128) as u8] + varint(v / 128)
    }
}

/// Reads one varint from the front of `bytes`: its value and how many bytes it took.
pub open spec fn decode_varint(bytes: Seq<u8>) -> (nat, nat)
    decreases bytes.len(),
{
    if bytes.len() == 0 {
        (0, 0)
    } else if bytes[0] < 128 {
        (bytes[0] as nat, 1)
    } else {
        let (v, used) = decode_varint(bytes.drop_first());
        ((bytes[0] - 128) as nat + 128 * v, used + 1)
    }
}

/// Reading a varint back gives the value it encodes, whatever follows it.
pub proof fn lemma_varint_roundtrip(v: nat, rest: Seq<u8>)
    ensures
        decode_varint(varint(v) + rest) == (v, varint(v).len()),
    decreases v,
{
    if v >= 128 {
        let b = (v % 128 + 128) as u8;
        assert((varint(v) + rest).drop_first() =~= varint(v / 128) + rest);
        lemma_varint_roundtrip(v / 128, rest);
        assert((varint(v) + rest)[0] == b);
    } else {
        assert((varint(v) + rest)[0] == v as u8);
    }
}

/// Appends the varint encoding of `value` to `out`.
pub fn encode_varint(value: u64, out: &mut Vec<u8>)
    ensures
        final(out)@ == old(out)@ + varint(value as nat),
{
    let mut value = value;
    let ghost v0 = value as nat;
    while value >= 0x80
        invariant
            old(out)@ + varint(v0) == out@ + varint(value as nat),
        decreases value,
    {
        let byte = ((value as u8) & 0x7f) | 0x80;
        proof {
            assert(((value as u8) & 0x7f) | 0x80 == (value % 128 + 128) as u8) by (bit_vector)
                requires value >= 0x80;
            assert(value >> 7 == value / 128) by (bit_vector);
        }
        let ghost before = out@;
        out.push(byte);
        proof {
            assert(varint(value as nat) == seq![byte] + varint((value / 128) as nat));
            assert(before + (seq![byte] + varint((value / 128) as nat)) =~= out@ + varint((value / 128) as nat));
        }
        value = value >> 7;
    }
    let ghost before = out@;
    out.push(value as u8);
    proof {
        assert(varint(value as nat) == seq![value as u8]);
        assert(out@ =~= before + varint(value as nat));
    }
}

/// The `count` low bytes of `v`, least significant first.
pub open spec fn le_bytes(v: nat, count: nat) -> Seq<u8>
    decreases count,
{
    if count == 0 {
        seq![]
    } else {
        seq![(v % 256) as u8] + le_bytes(v / 256, (count - 1) as nat)
    }
}

/// The value of little-endian bytes.
pub open spec fn le_value(bytes: Seq<u8>) -> nat
    decreases bytes.len(),
{
    if bytes.len() == 0 {
        0
    } else {
        bytes[0] as nat + 256 * le_value(bytes.drop_first())
    }
}

/// Reading the eight little-endian bytes of a `u64` gives it back.
pub proof fn lemma_le_roundtrip(v: nat, count: nat)
    requires
        v < pow256(count),
    ensures
        le_value(le_bytes(v, count)) == v,
        le_bytes(v, count).len() == count,
    decreases count,
{
    if count > 0 {
        lemma_le_roundtrip(v / 256, (count - 1) as nat);
        assert(le_bytes(v, count).drop_first() =~= le_bytes(v / 256, (count - 1) as nat));
    }
}

/// `256^count`.
pub open spec fn pow256(count: nat) -> nat
    decreases count,
{
    if count == 0 {
        1
    } else {
        256 * pow256((count - 1) as nat)
    }
}

/// Appends the eight little-endian bytes of `v` to `out`.
pub fn push_u64_le(out: &mut Vec<u8>, v: u64)
    ensures
        final(out)@ == old(out)@ + le_bytes(v as nat, 8),
{
    let mut rest = v;
    let mut i: usize = 0;
    while i < 8
        invariant
            i <= 8,
            old(out)@ + le_bytes(v as nat, 8) == out@ + le_bytes(rest as nat, (8 - i) as nat),
        decreases 8 - i,
    {
        let byte = (rest & 0xff) as u8;
        proof {
            assert(rest & 0xff == rest % 256) by (bit_vector);
            assert(rest >> 8 == rest / 256) by (bit_vector);
        }
        let ghost before = out@;
        out.push(byte);
        proof {
            assert(le_bytes(rest as nat, (8 - i) as nat) == seq![byte] + le_bytes((rest / 256) as nat, (8 - i - 1) as nat));
            assert(before + (seq![byte] + le_bytes((rest / 256) as nat, (8 - i - 1) as nat)) =~= out@ + le_bytes(
                (rest / 256) as nat,
                (8 - i - 1) as nat,
            ));
        }
        rest = rest >> 8;
        i += 1;
    }
    proof {
        assert(out@ + le_bytes(rest as nat, 0) =~= out@);
    }
}

/// The step of each survivor: `(k - k0) / 6`.
pub open spec fn steps_of(survivors: Seq<u64>, k0: int) -> Seq<nat> {
    Seq::new(survivors.len(), |i: int| ((survivors[i] - k0) / 6) as nat)
}

/// The varint deltas of a non-decreasing list of steps: the first step, then
/// each step minus the one before.
pub open spec fn delta_bytes(steps: Seq<nat>) -> Seq<u8>
    decreases steps.len(),
{
    if steps.len() == 0 {
        seq![]
    } else if steps.len() == 1 {
        varint(steps[0])
    } else {
        let last = steps.len() - 1;
        delta_bytes(steps.drop_last()) + varint((steps[last] - steps[last - 1]) as nat)
    }
}

/// The payload: the count as eight little-endian bytes, then the delta varints.
pub open spec fn compact_payload_bytes(survivors: Seq<u64>, k0: int) -> Seq<u8> {
    le_bytes(survivors.len(), 8) + delta_bytes(steps_of(survivors, k0))
}

/// What the payload encoding needs: every survivor at or after the batch start,
/// and the steps non-decreasing.
pub open spec fn payload_ready(survivors: Seq<u64>, k0: int) -> bool {
    &&& forall|i: int| 0 <= i < survivors.len() ==> k0 <= #[trigger] survivors[i]
    &&& forall|i: int, j: int|
        0 <= i <= j < survivors.len() ==> (#[trigger] survivors[i] - k0) / 6 <= (#[trigger] survivors[j] - k0) / 6
}

/// The compact payload of a batch: the survivor count as a little-endian `u64`,
/// then the varint deltas of the steps `(k - batch_k0) / 6`.
pub fn compact_payload(batch: &SurvivorBatch) -> (payload: Vec<u8>)
    requires
        payload_ready(batch.survivors@, batch.batch_k0 as int),
    ensures
        payload@ == compact_payload_bytes(batch.survivors@, batch.batch_k0 as int),
{
    let mut payload: Vec<u8> = Vec::new();
    push_u64_le(&mut payload, batch.survivors.len() as u64);
    let ghost head = payload@;
    let ghost steps = steps_of(batch.survivors@, batch.batch_k0 as int);
    let mut prev_step: u64 = 0;
    let mut i: usize = 0;
    while i < batch.survivors.len()
        invariant
            i <= batch.survivors@.len(),
            payload_ready(batch.survivors@, batch.batch_k0 as int),
            steps == steps_of(batch.survivors@, batch.batch_k0 as int),
            head == le_bytes(batch.survivors@.len() as nat, 8),
            payload@ == head + delta_bytes(steps.subrange(0, i as int)),
            i > 0 ==> prev_step == steps[i - 1],
        decreases batch.survivors@.len() - i,
    {
        let k = batch.survivors[i];
        let step = (k - batch.batch_k0) / 6;
        let delta = if i == 0 {
            step
        } else {
            proof {
                assert((batch.survivors@[i - 1] - batch.batch_k0) / 6 <= (batch.survivors@[i as int] - batch.batch_k0) / 6);
            }
            step - prev_step
        };
        let ghost before = payload@;
        encode_varint(delta, &mut payload);
        proof {
            let pre = steps.subrange(0, i as int);
            let next = steps.subrange(0, i + 1);
            assert(next.drop_last() =~= pre);
            if i > 0 {
                assert(next[i - 1] == steps[i - 1]);
            }
            assert(payload@ =~= head + delta_bytes(next));
        }
        prev_step = step;
        i += 1;
    }
    proof {
        assert(steps.subrange(0, batch.survivors@.len() as int) =~= steps);
    }
    payload
}

/// The deltas of a list of steps: the first step, then each step minus the one before.
pub open spec fn deltas(steps: Seq<nat>) -> Seq<nat> {
    Seq::new(steps.len(), |i: int| if i == 0 { steps[0] } else { (steps[i] - steps[i - 1]) as nat })
}

/// The varints of a list of values, one after the other.
pub open spec fn varints(ds: Seq<nat>) -> Seq<u8>
    decreases ds.len(),
{
    if ds.len() == 0 {
        seq![]
    } else {
        varints(ds.drop_last()) + varint(ds.last())
    }
}

/// Reads `count` varints from the front of `bytes`.
pub open spec fn decode_varints(bytes: Seq<u8>, count: nat) -> Seq<nat>
    decreases count,
{
    if count == 0 {
        seq![]
    } else {
        let (d, used) = decode_varint(bytes);
        seq![d] + decode_varints(bytes.subrange(used as int, bytes.len() as int), (count - 1) as nat)
    }
}

/// The running sums of a list of deltas.
pub open spec fn running_sums(ds: Seq<nat>) -> Seq<nat>
    decreases ds.len(),
{
    if ds.len() == 0 {
        seq![]
    } else {
        let p = running_sums(ds.drop_last());
        p.push(if p.len() == 0 { ds.last() } else { p.last() + ds.last() })
    }
}

/// What a reader gets back from a payload: the count from the first eight
/// bytes, then that many varint deltas summed into steps.
pub open spec fn decode_payload(bytes: Seq<u8>) -> Seq<nat> {
    let count = le_value(bytes.subrange(0, 8));
    running_sums(decode_varints(bytes.subrange(8, bytes.len() as int), count))
}

proof fn lemma_varints_front(ds: Seq<nat>)
    requires
        ds.len() > 0,
    ensures
        varints(ds) == varint(ds[0]) + varints(ds.drop_first()),
    decreases ds.len(),
{
    if ds.len() > 1 {
        lemma_varints_front(ds.drop_last());
        assert(ds.drop_last().drop_first() =~= ds.drop_first().drop_last());
        assert(ds.drop_first().last() == ds.last());
        assert(varints(ds.drop_first()) == varints(ds.drop_first().drop_last()) + varint(ds.last()));
        assert(varints(ds) =~= varint(ds[0]) + varints(ds.drop_first()));
    } else {
        assert(ds.drop_last() =~= seq![]);
        assert(ds.drop_first() =~= seq![]);
        assert(varints(ds) =~= varint(ds[0]) + varints(ds.drop_first()));
    }
}

proof fn lemma_decode_varints(ds: Seq<nat>, rest: Seq<u8>)
    ensures
        decode_varints(varints(ds) + rest, ds.len()) == ds,
    decreases ds.len(),
{
    if ds.len() > 0 {
        lemma_varints_front(ds);
        let tail = ds.drop_first();
        let bytes = varints(ds) + rest;
        assert(bytes =~= varint(ds[0]) + (varints(tail) + rest));
        lemma_varint_roundtrip(ds[0], varints(tail) + rest);
        let used = varint(ds[0]).len();
        assert(bytes.subrange(used as int, bytes.len() as int) =~= varints(tail) + rest);
        lemma_decode_varints(tail, rest);
        assert(decode_varints(bytes, ds.len()) =~= ds);
    }
}

proof fn lemma_delta_bytes_are_varints(steps: Seq<nat>)
    ensures
        delta_bytes(steps) == varints(deltas(steps)),
    decreases steps.len(),
{
    if steps.len() > 0 {
        lemma_delta_bytes_are_varints(steps.drop_last());
        assert(deltas(steps).drop_last() =~= deltas(steps.drop_last()));
        if steps.len() == 1 {
            assert(deltas(steps).drop_last() =~= seq![]);
            assert(varints(deltas(steps)) =~= varint(steps[0]));
        }
    }
}

proof fn lemma_running_sums_of_deltas(steps: Seq<nat>)
    requires
        forall|i: int, j: int| 0 <= i <= j < steps.len() ==> #[trigger] steps[i] <= #[trigger] steps[j],
    ensures
        running_sums(deltas(steps)) == steps,
    decreases steps.len(),
{
    if steps.len() > 0 {
        let pre = steps.drop_last();
        assert forall|i: int, j: int| 0 <= i <= j < pre.len() implies #[trigger] pre[i] <= #[trigger] pre[j] by {
            assert(pre[i] == steps[i] && pre[j] == steps[j]);
        }
        lemma_running_sums_of_deltas(pre);
        assert(deltas(steps).drop_last() =~= deltas(pre));
        let last = steps.len() - 1;
        if last > 0 {
            assert(steps[last - 1] <= steps[last]);
            assert(pre.last() == steps[last - 1]);
        }
        assert(running_sums(deltas(steps)) =~= steps);
    }
}

/// A reader of the compact payload gets every survivor's step back, and with it
/// the survivor itself as `batch_k0 + 6 * step` when it lies on the batch's
/// progression (`k = batch_k0 (mod 6)`).
pub proof fn lemma_compact_payload_roundtrip(survivors: Seq<u64>, k0: int)
    requires
        payload_ready(survivors, k0),
        survivors.len() <= u64::MAX,
    ensures
        decode_payload(compact_payload_bytes(survivors, k0)) == steps_of(survivors, k0),
        forall|i: int|
            0 <= i < survivors.len() && (survivors[i] - k0) % 6 == 0 ==> k0 + 6 * #[trigger] decode_payload(
                compact_payload_bytes(survivors, k0),
            )[i] == survivors[i],
{
    let steps = steps_of(survivors, k0);
    let bytes = compact_payload_bytes(survivors, k0);
    assert(pow256(8) == 0x1_0000_0000_0000_0000) by {
        reveal_with_fuel(pow256, 9);
    }
    lemma_le_roundtrip(survivors.len() as nat, 8);
    let head = le_bytes(survivors.len() as nat, 8);
    assert(bytes.subrange(0, 8) =~= head);
    assert(bytes.subrange(8, bytes.len() as int) =~= delta_bytes(steps) + seq![]);
    lemma_delta_bytes_are_varints(steps);
    lemma_decode_varints(deltas(steps), seq![]);
    assert forall|i: int, j: int| 0 <= i <= j < steps.len() implies #[trigger] steps[i] <= #[trigger] steps[j] by {
        assert((survivors[i] - k0) / 6 <= (survivors[j] - k0) / 6);
    }
    lemma_running_sums_of_deltas(steps);
    assert forall|i: int| 0 <= i < survivors.len() && (survivors[i] - k0) % 6 == 0 implies k0 + 6
        * #[trigger] decode_payload(bytes)[i] == survivors[i] by {
        vstd::arithmetic::div_mod::lemma_fundamental_div_mod(survivors[i] - k0, 6);
    }
}

proof fn lemma_sieved_offsets_ascending(n: int, k_start: int, k_count: int, plan: Seq<KPlan>, m: int)
    requires
        k_count <= u64::MAX,
    ensures
        forall|i: int| 0 <= i < sieved_offsets(n, k_start, k_count, plan, m).len() ==> #[trigger] sieved_offsets(
            n,
            k_start,
            k_count,
            plan,
            m,
        )[i] < m && sieved_offsets(n, k_start, k_count, plan, m)[i] < k_count,
        forall|i: int, j: int|
            0 <= i < j < sieved_offsets(n, k_start, k_count, plan, m).len() ==> #[trigger] sieved_offsets(
                n,
                k_start,
                k_count,
                plan,
                m,
            )[i] < #[trigger] sieved_offsets(n, k_start, k_count, plan, m)[j],
    decreases m,
{
    if m > 0 {
        lemma_sieved_offsets_ascending(n, k_start, k_count, plan, m - 1);
        let prev = sieved_offsets(n, k_start, k_count, plan, m - 1);
        let cur = sieved_offsets(n, k_start, k_count, plan, m);
        if cur.len() > prev.len() {
            assert(cur == prev.push((m - 1) as u64));
            assert forall|i: int| 0 <= i < cur.len() implies #[trigger] cur[i] < m && cur[i] < k_count by {
                if i < prev.len() {
                    assert(cur[i] == prev[i]);
                }
            }
            assert forall|i: int, j: int| 0 <= i < j < cur.len() implies #[trigger] cur[i] < #[trigger] cur[j] by {
                assert(cur[i] == prev[i]);
                assert(prev[i] < m - 1);
                if j < prev.len() {
                    assert(cur[j] == prev[j]);
                } else {
                    assert(cur[j] == m - 1);
                }
            }
        }
    }
}

/// A sieved batch is ready for the compact payload: its survivors
/// `k0 + 6 * offset` come in ascending order on the batch's progression, so
/// their steps are exactly the offsets.
pub proof fn lemma_batch_payload_ready(n: int, k0: int, k_count: int, plan: Seq<KPlan>)
    requires
        0 <= k0,
        k0 + 6 * k_count <= u64::MAX + 6,
    ensures
        ({
            let offs = sieved_offsets(n, k0, k_count, plan, k_count);
            let ks = ks_of_offsets(k0, offs);
            &&& payload_ready(ks, k0)
            &&& forall|i: int| 0 <= i < ks.len() ==> (#[trigger] ks[i] - k0) % 6 == 0
            &&& steps_of(ks, k0) == offs.map_values(|o: u64| o as nat)
        }),
{
    let offs = sieved_offsets(n, k0, k_count, plan, k_count);
    let ks = ks_of_offsets(k0, offs);
    lemma_sieved_offsets_ascending(n, k0, k_count, plan, k_count);
    assert forall|i: int| 0 <= i < ks.len() implies #[trigger] ks[i] == k0 + 6 * offs[i] && (ks[i] - k0) / 6 == offs[i]
        && (ks[i] - k0) % 6 == 0 by {
        assert(offs[i] < k_count);
        vstd::arithmetic::div_mod::lemma_fundamental_div_mod_converse(6 * offs[i], 6, offs[i] as int, 0);
    }
    assert forall|i: int, j: int| 0 <= i <= j < ks.len() implies (#[trigger] ks[i] - k0) / 6 <= (#[trigger] ks[j] - k0)
        / 6 by {
        if i < j {
            assert(offs[i] < offs[j]);
        }
    }
    assert(steps_of(ks, k0) =~= offs.map_values(|o: u64| o as nat));
}

} // verus!

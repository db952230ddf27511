//! Hooks that let benchmarks reach internal stages of the decoder.

use vstd::prelude::*;

use crate::hevc::cabac::ctx::INIT_VALUES;
use crate::hevc::bitmath::bits_of;
use crate::hevc::cabac::encoder::{Enc, EncModel, STEP_GROWTH, bypass_m, decision_m, terminate_m};
use crate::hevc::cabac::engine::{OVERREAD_SLACK, init_context, read_limit, stream_bit, stream_value};
use crate::hevc::cabac::{Cabac, NUM_CTX, off};
use crate::hevc::decode::residual_ctx::{decision_step, state_of};
use crate::hevc::error::Result;
use crate::hevc::intra::pred::{block_size, predicted};
use crate::hevc::intra::smooth::{bilinear, smooth_entry, smoothing_applies};
use crate::hevc::intra::{Refs, filter_refs, predict};

verus! {

/// The CABAC context index of `split_cu_flag`, so benches can name one.
pub const SPLIT_CU_CTX: usize = off::SPLIT_CU;

/// Entry `i` of the deterministic ramp [`ramp_refs`] writes.
pub open spec fn ramp_at(i: int) -> int {
    (i * 7 + 13) % 256
}

/// Builds a reference sample set with a deterministic ramp: entry `i` of
/// the `4 * n + 1` meaningful ones is `(7 * i + 13) mod 256`, the rest 0.
pub fn ramp_refs(n: usize) -> (r: Refs)
    requires
        n <= 32,
    ensures
        r.n == n,
        forall|i: int| 0 <= i < 4 * n + 1 ==> #[trigger] r.buf@[i] as int == ramp_at(i),
        forall|i: int| 4 * n + 1 <= i < 129 ==> #[trigger] r.buf@[i] == 0,
{
    let mut r = Refs::new(n);
    let mut i: usize = 0;
    while i < 4 * n + 1
        invariant
            n <= 32,
            i <= 4 * n + 1,
            r.n == n,
            forall|k: int| 0 <= k < i ==> #[trigger] r.buf@[k] as int == ramp_at(k),
            forall|k: int| i <= k < 129 ==> #[trigger] r.buf@[k] == 0,
        decreases 4 * n + 1 - i,
    {
        r.buf[i] = ((i * 7 + 13) % 256) as u16;
        i += 1;
    }
    r
}

/// The reference samples [`filter_refs`] hands on for a luma block in
/// 4:2:0 with strong smoothing enabled: smoothed where smoothing applies,
/// unchanged otherwise.
pub open spec fn luma_filtered(r: Refs, f: Refs, mode: u8, bit_depth: u8) -> bool {
    &&& f.n == r.n
    &&& !smoothing_applies(r, mode, 0, 1, false) ==> f.buf@ == r.buf@
    &&& smoothing_applies(r, mode, 0, 1, false) ==> forall|j: int|
        0 <= j < 129 ==> #[trigger] f.buf@[j] as int == smooth_entry(r, bilinear(r, 0, bit_depth, true), j)
}

/// Filters the references and predicts one block, as intra reconstruction does.
pub fn filter_and_predict(r: &Refs, mode: u8, bit_depth: u8, out: &mut [u16], stride: usize)
    requires
        r.n <= 32,
        bit_depth < 31,
        smoothing_applies(*r, mode, 0, 1, false) ==> r.n >= 1,
        block_size(r.n as int) ==> r.n <= stride && (r.n - 1) * stride + r.n <= old(out)@.len(),
    ensures
        final(out)@.len() == old(out)@.len(),
        exists|f: Refs|
            {
                &&& luma_filtered(*r, f, mode, bit_depth)
                &&& forall|k: int|
                    0 <= k < old(out)@.len() ==> #[trigger] final(out)@[k] == if block_size(r.n as int) {
                        predicted(f, mode, 0, bit_depth, stride as int, old(out)@, k)
                    } else {
                        old(out)@[k]
                    }
            },
{
    let f = filter_refs(r, mode, 0, bit_depth, 1, true, false);
    predict(&f, mode, 0, bit_depth, out, stride);
    assert(luma_filtered(*r, f, mode, bit_depth));
}

/// The seed of the pseudo-random bin choices the benchmarks encode and decode.
pub const BENCH_SEED: u32 = 0x2545_f491;

/// One xorshift step of the benchmarks' pseudo-random sequence.
pub open spec fn xorshift(s: u32) -> u32 {
    let a = s ^ (s << 13u32);
    let b = a ^ (a >> 17u32);
    b ^ (b << 5u32)
}

/// The next benchmark value after `s`.
fn next(s: u32) -> (r: u32)
    ensures
        r == xorshift(s),
{
    let mut x = s;
    x ^= x << 13;
    x ^= x >> 17;
    x ^= x << 5;
    x
}

/// One `DecodeBypass` from decoder state `st` on `data`: whether a bit is
/// left to read, the bin, and the state after it.
pub open spec fn bypass_step(data: Seq<u8>, st: (Seq<u8>, int, int, int)) -> (bool, u32, (
    Seq<u8>,
    int,
    int,
    int,
)) {
    let t = 2 * st.2 + stream_bit(data, st.3);
    if t >= st.1 {
        (st.3 < read_limit(data), 1, (st.0, st.1, t - st.1, st.3 + 1))
    } else {
        (st.3 < read_limit(data), 0, (st.0, st.1, t, st.3 + 1))
    }
}

/// `k` more benchmark bins from decoder state `st`, the sequence at `s`,
/// with `acc` summed so far: each step advances the sequence and decodes a
/// context-coded bin (context `(s >> 8) mod NUM_CTX`) when `s mod 8 < 6`,
/// a bypass bin otherwise, adding it to `acc` modulo `2^32`. Whether the
/// stream held every bin, and the sum.
pub open spec fn bench_bins(data: Seq<u8>, st: (Seq<u8>, int, int, int), s: u32, acc: u32, k: nat) -> (bool, u32)
    decreases k,
{
    if k == 0 {
        (true, acc)
    } else {
        let s2 = xorshift(s);
        let (ok, bin, st2) = if s2 % 8 < 6 {
            decision_step(data, st, ((s2 >> 8u32) as int) % (NUM_CTX as int))
        } else {
            bypass_step(data, st)
        };
        if !ok {
            (false, acc)
        } else {
            bench_bins(data, st2, s2, vstd::wrapping::u32_specs::wrapping_add(acc, bin), (k - 1) as nat)
        }
    }
}

/// The decoder state `Cabac::new` starts `data` in at slice QP `qp`.
pub open spec fn start_state(data: Seq<u8>, qp: i32) -> (Seq<u8>, int, int, int) {
    (Seq::new(NUM_CTX as nat, |i: int| init_context(INIT_VALUES[i], qp as int)), 510, stream_value(data, 0, 9), 9)
}

/// Decodes `n` bins from a stream produced by [`encode_bins`], choosing
/// each bin's kind by the same pseudo-random sequence, and sums them.
pub fn decode_bins(data: &[u8], n: usize, qp: i32) -> (r: Result<u32>)
    requires
        (data@.len() + OVERREAD_SLACK) * 8 + 64 <= usize::MAX,
    ensures
        ({
            let opened = 9 <= read_limit(data@) && stream_value(data@, 0, 9) < 510;
            let (ok, acc) = bench_bins(data@, start_state(data@, qp), BENCH_SEED, 0, n as nat);
            &&& r is Ok <==> opened && ok
            &&& r matches Ok(v) ==> v == acc
        }),
{
    let mut c = match Cabac::new(data, 0, qp) {
        Ok(c) => c,
        Err(e) => return Err(e),
    };
    proof {
        assert(c.spec_ctx() =~= start_state(data@, qp).0);
        assert(state_of(&c) == start_state(data@, qp));
    }
    let mut s = BENCH_SEED;
    let mut acc = 0u32;
    let mut i: usize = 0;
    while i < n
        invariant
            i <= n,
            c.wf(),
            c.engine_ok(),
            c.spec_data() == data@,
            bench_bins(data@, start_state(data@, qp), BENCH_SEED, 0, n as nat) == bench_bins(
                data@,
                state_of(&c),
                s,
                acc,
                (n - i) as nat,
            ),
        decreases n - i,
    {
        s = next(s);
        let bin = if s % 8 < 6 {
            match c.decision(((s >> 8) as usize) % NUM_CTX) {
                Ok(b) => b,
                Err(e) => return Err(e),
            }
        } else {
            match c.bypass() {
                Ok(b) => b,
                Err(e) => return Err(e),
            }
        };
        acc = acc.wrapping_add(bin);
        i += 1;
    }
    Ok(acc)
}

/// The encoder state after `k` more benchmark bins from state `m`, the
/// sequence at `s`: each step advances the sequence and encodes bit 4 of
/// the value, context-coded (context `(s >> 8) mod NUM_CTX`) when
/// `s mod 8 < 6`, else bypass-coded.
pub open spec fn bench_encode(m: EncModel, s: u32, k: nat) -> EncModel
    decreases k,
{
    if k == 0 {
        m
    } else {
        let s2 = xorshift(s);
        let bin = ((s2 >> 4u32) & 1u32) as int;
        let m2 = if s2 % 8 < 6 {
            decision_m(m, ((s2 >> 8u32) as int) % (NUM_CTX as int), bin)
        } else {
            bypass_m(m, bin)
        };
        bench_encode(m2, s2, (k - 1) as nat)
    }
}

/// A fresh encoder's state at slice QP `qp`.
pub open spec fn fresh_encoder(qp: i32) -> EncModel {
    (0, 510, true, 0, Seq::empty(), Seq::new(NUM_CTX as nat, |i: int| init_context(INIT_VALUES[i], qp as int)))
}

/// Produces a bitstream of `n` pseudo-random context-coded and bypass bins,
/// in the sequence [`decode_bins`] reads back, ended by a terminating bin.
pub fn encode_bins(n: usize, qp: i32) -> (out: Vec<u8>)
    requires
        n < 0x0100_0000,
    ensures
        out@.len() * 8 < STEP_GROWTH * (n + 1) + 8,
        ({
            let bits = terminate_m(bench_encode(fresh_encoder(qp), BENCH_SEED, n as nat), 1).4;
            &&& out@.len() * 8 >= bits.len()
            &&& out@.len() * 8 < bits.len() + 8
            &&& forall|i: int| 0 <= i < bits_of(out@).len() ==> #[trigger] bits_of(out@)[i] == (i < bits.len() && bits[i] == 1)
        }),
{
    let mut e = Enc::new(qp);
    proof {
        e.lemma_model();
        assert(e.model().5 =~= fresh_encoder(qp).5);
        assert(e.model().4 =~= fresh_encoder(qp).4);
        assert(e.model() == fresh_encoder(qp));
    }
    let mut s = BENCH_SEED;
    let mut i: usize = 0;
    while i < n
        invariant
            i <= n < 0x0100_0000,
            e.wf(),
            e.emitted().len() + e.pending() <= STEP_GROWTH * i,
            bench_encode(e.model(), s, (n - i) as nat) == bench_encode(fresh_encoder(qp), BENCH_SEED, n as nat),
        decreases n - i,
    {
        s = next(s);
        if s % 8 < 6 {
            e.decision(((s >> 8) as usize) % NUM_CTX, (s >> 4) & 1);
        } else {
            e.bypass((s >> 4) & 1);
        }
        i += 1;
    }
    let ghost before = e.model();
    proof {
        assert(bench_encode(before, s, 0) == before);
    }
    e.terminate(1);
    proof {
        e.lemma_model();
        assert(e.emitted() == terminate_m(bench_encode(fresh_encoder(qp), BENCH_SEED, n as nat), 1).4);
    }
    let ghost em = e.emitted();
    let out = e.finish();
    proof {
        assert forall|i: int| 0 <= i < bits_of(out@).len() implies #[trigger] bits_of(out@)[i] == (i < em.len() && em[i] == 1) by {}
    }
    out
}

} // verus!

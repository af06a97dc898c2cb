//! Tier-1 decoding of code-blocks (Annex D) for the default MQ coding style: one cleanup pass on
//! the top bit-plane, then significance propagation, magnitude refinement and cleanup passes.
use vstd::prelude::*;
use crate::error::{Jp2LamError, Result, decode_failed};
use crate::mq::{MqDecView, MqDecoder, T1_CTXNO_AGG, T1_CTXNO_UNI, T1_CTXNO_ZC, dec_decision, dec_initial};
use crate::plan_types::BandOrientation;
use crate::text::{append_decimal, decimal};
use crate::tier1::{FLAG_NEG, FLAG_REFINED, FLAG_SIG, FLAG_VISITED, FlagGrid, cells_cardinal, cells_mask, cells_stripe_clean, has, magnitude_context, mr_context, sc_context, sc_xor, sign_context, sign_prediction_bit, with_bit, without_bit, zc_context, zero_coding_context};

verus! {

/// The decoded coefficients of one code-block, row by row.
#[derive(Debug, Clone)]
pub struct DecodedCodeBlockCoefficients {
    pub width: usize,
    pub height: usize,
    pub coefficients: Vec<i32>,
}

/// 2 to the power `k`.
pub open spec fn pow2(k: nat) -> nat
    decreases k,
{
    if k == 0 { 1 } else { 2 * pow2((k - 1) as nat) }
}

proof fn lemma_or_bit_bound(a: u32, bp: u32, mb: u32)
    requires
        mb <= 31,
        bp < mb,
        a < (1u32 << mb),
    ensures
        (a | (1u32 << bp)) < (1u32 << mb),
{
    assert((a | (1u32 << bp)) < (1u32 << mb)) by (bit_vector)
        requires mb <= 31, bp < mb, a < (1u32 << mb);
}

/// What a code-block decoder holds: the MQ decoder, the flags, and each sample's magnitude and
/// sign, row by row.
#[verifier::ext_equal]
pub struct T1DecState {
    pub mq: MqDecView,
    pub flags: Seq<u8>,
    pub mags: Seq<u32>,
    pub signs: Seq<u8>,
}

/// The code-block being decoded: its size, its subband and its codeword.
pub struct T1Block {
    pub w: nat,
    pub h: nat,
    pub band: BandOrientation,
    pub data: Seq<u8>,
}

/// Sample `(x, y)` becomes significant in bit-plane `bp`: its sign is decoded (D.3.2) and its
/// magnitude takes the bit.
pub open spec fn dec_new_sig(b: T1Block, st: T1DecState, bp: u32, x: int, y: int) -> T1DecState {
    let pattern = cells_cardinal(st.flags, b.w, b.h, x, y);
    let (mq, bit) = dec_decision(st.mq, b.data, sc_context(pattern) as int);
    let sign = bit ^ sc_xor(pattern);
    let i = y * b.w + x;
    let f = with_bit(st.flags[i], FLAG_SIG);
    T1DecState {
        mq,
        flags: st.flags.update(i, if sign != 0 { with_bit(f, FLAG_NEG) } else { f }),
        mags: st.mags.update(i, st.mags[i] | (1u32 << bp)),
        signs: st.signs.update(i, sign),
    }
}

/// The significance propagation pass at sample `(x, y)` (D.3.1): an insignificant sample with a
/// significant neighbour decodes whether it becomes significant.
pub open spec fn dec_sig_step(b: T1Block, st: T1DecState, bp: u32, x: int, y: int) -> T1DecState {
    let i = y * b.w + x;
    let mask = cells_mask(st.flags, b.w, b.h, x, y);
    if has(st.flags[i], FLAG_SIG) || mask == 0 {
        st
    } else {
        let (mq, bit) = dec_decision(st.mq, b.data, zc_context(b.band, mask) as int);
        let st2 = T1DecState { mq, flags: st.flags.update(i, with_bit(st.flags[i], FLAG_VISITED)), ..st };
        if bit != 0 { dec_new_sig(b, st2, bp, x, y) } else { st2 }
    }
}

/// The magnitude refinement pass at sample `(x, y)` (D.3.3).
pub open spec fn dec_ref_step(b: T1Block, st: T1DecState, bp: u32, x: int, y: int) -> T1DecState {
    let i = y * b.w + x;
    if !(has(st.flags[i], FLAG_SIG)) || has(st.flags[i], FLAG_VISITED) {
        st
    } else {
        let ctx = mr_context(cells_mask(st.flags, b.w, b.h, x, y) != 0, has(st.flags[i], FLAG_REFINED));
        let (mq, bit) = dec_decision(st.mq, b.data, ctx as int);
        T1DecState {
            mq,
            flags: st.flags.update(i, with_bit(st.flags[i], FLAG_REFINED)),
            mags: if bit != 0 { st.mags.update(i, st.mags[i] | (1u32 << bp)) } else { st.mags },
            signs: st.signs,
        }
    }
}

/// The cleanup pass at sample `(x, y)` outside run-length mode (D.3.4).
pub open spec fn dec_cleanup_sample(b: T1Block, st: T1DecState, bp: u32, x: int, y: int) -> T1DecState {
    let i = y * b.w + x;
    let cleared = st.flags.update(i, without_bit(st.flags[i], FLAG_VISITED));
    if has(st.flags[i], FLAG_SIG) || has(st.flags[i], FLAG_VISITED) {
        T1DecState { flags: cleared, ..st }
    } else {
        let mask = cells_mask(st.flags, b.w, b.h, x, y);
        let ctx = if mask != 0 { zc_context(b.band, mask) } else { T1_CTXNO_ZC };
        let (mq, bit) = dec_decision(st.mq, b.data, ctx as int);
        let st2 = T1DecState { mq, flags: cleared, ..st };
        if bit != 0 { dec_new_sig(b, st2, bp, x, y) } else { st2 }
    }
}

/// One sample of a pass: 0 significance propagation, 1 magnitude refinement, 2 cleanup.
pub open spec fn dec_sample(b: T1Block, st: T1DecState, kind: u8, bp: u32, x: int, y: int) -> T1DecState {
    if kind == 0 { dec_sig_step(b, st, bp, x, y) }
    else if kind == 1 { dec_ref_step(b, st, bp, x, y) }
    else { dec_cleanup_sample(b, st, bp, x, y) }
}

/// Rows `k + from .. k + to` of column `x`, one sample after the other.
pub open spec fn dec_column(b: T1Block, st: T1DecState, kind: u8, bp: u32, x: int, k: int, from: int, to: int) -> T1DecState
    decreases to - from,
{
    if from >= to { st } else { dec_column(b, dec_sample(b, st, kind, bp, x, k + from), kind, bp, x, k, from + 1, to) }
}

/// The visited marks of rows `k + from .. k + to` of column `x` cleared.
pub open spec fn dec_clear_column(b: T1Block, st: T1DecState, x: int, k: int, from: int, to: int) -> T1DecState
    decreases to - from,
{
    if from >= to {
        st
    } else {
        let i = (k + from) * b.w + x;
        dec_clear_column(b, T1DecState { flags: st.flags.update(i, without_bit(st.flags[i], FLAG_VISITED)), ..st }, x, k, from + 1, to)
    }
}

/// The cleanup pass over the full stripe column of four samples at `(x, k)`, with run-length mode
/// when all four are clean (D.3.4).
pub open spec fn dec_cleanup_stripe(b: T1Block, st: T1DecState, bp: u32, x: int, k: int) -> T1DecState {
    if cells_stripe_clean(st.flags, b.w, b.h, x, k, 4) {
        let (mq1, agg) = dec_decision(st.mq, b.data, T1_CTXNO_AGG as int);
        if agg == 0 {
            dec_clear_column(b, T1DecState { mq: mq1, ..st }, x, k, 0, 4)
        } else {
            let (mq2, hi) = dec_decision(mq1, b.data, T1_CTXNO_UNI as int);
            let (mq3, lo) = dec_decision(mq2, b.data, T1_CTXNO_UNI as int);
            let run = hi * 2 + lo;
            let y = k + run;
            let st4 = dec_new_sig(b, T1DecState { mq: mq3, ..st }, bp, x, y);
            let i = y * b.w + x;
            let st5 = T1DecState { flags: st4.flags.update(i, without_bit(st4.flags[i], FLAG_VISITED)), ..st4 };
            dec_column(b, st5, 2, bp, x, k, run + 1, 4)
        }
    } else {
        dec_column(b, st, 2, bp, x, k, 0, 4)
    }
}

/// A pass over the stripe columns of rows `k..k + 4`, from column `x` to the right edge: the
/// cleanup pass stripe by stripe, the others sample by sample.
pub open spec fn dec_row(b: T1Block, st: T1DecState, kind: u8, bp: u32, k: int, x: int) -> T1DecState
    decreases b.w - x,
{
    if x >= b.w {
        st
    } else {
        let st2 = if kind == 2 { dec_cleanup_stripe(b, st, bp, x, k) } else { dec_column(b, st, kind, bp, x, k, 0, 4) };
        dec_row(b, st2, kind, bp, k, x + 1)
    }
}

/// A pass over `n` full stripes from row `k` down.
pub open spec fn dec_stripes(b: T1Block, st: T1DecState, kind: u8, bp: u32, k: int, n: nat) -> T1DecState
    decreases n,
{
    if n == 0 { st } else { dec_stripes(b, dec_row(b, st, kind, bp, k, 0), kind, bp, k + 4, (n - 1) as nat) }
}

/// A pass over the last, short stripe of `rem` rows from row `full`, from column `x` on.
pub open spec fn dec_rem_row(b: T1Block, st: T1DecState, kind: u8, bp: u32, full: int, rem: int, x: int) -> T1DecState
    decreases b.w - x,
{
    if x >= b.w { st } else { dec_rem_row(b, dec_column(b, st, kind, bp, x, full, 0, rem), kind, bp, full, rem, x + 1) }
}

/// One pass over the code-block in stripe order (D.3): stripes of four rows, column by column.
pub open spec fn dec_pass(b: T1Block, st: T1DecState, kind: u8, bp: u32) -> T1DecState {
    let full = (b.h / 4) * 4;
    let st1 = dec_stripes(b, st, kind, bp, 0, b.h / 4);
    if b.h > full { dec_rem_row(b, st1, kind, bp, full as int, b.h - full, 0) } else { st1 }
}

/// The visited marks of row `y` cleared from column `x` to the right edge.
pub open spec fn dec_clear_row(b: T1Block, st: T1DecState, y: int, x: int) -> T1DecState
    decreases b.w - x,
{
    if x >= b.w {
        st
    } else {
        let i = y * b.w + x;
        dec_clear_row(b, T1DecState { flags: st.flags.update(i, without_bit(st.flags[i], FLAG_VISITED)), ..st }, y, x + 1)
    }
}

/// The visited marks of rows `y..` cleared.
pub open spec fn dec_clear_rows(b: T1Block, st: T1DecState, y: int) -> T1DecState
    decreases b.h - y,
{
    if y >= b.h { st } else { dec_clear_rows(b, dec_clear_row(b, st, y, 0), y + 1) }
}

/// The passes of the bit-planes below `bp`, at most `rem` of them: significance propagation,
/// magnitude refinement and cleanup on each, the visited marks cleared after each cleanup.
pub open spec fn dec_planes(b: T1Block, st: T1DecState, bp: u32, rem: u32) -> T1DecState
    decreases bp,
{
    if bp == 0 || rem == 0 {
        st
    } else {
        let p = (bp - 1) as u32;
        let s1 = dec_pass(b, st, 0, p);
        if rem == 1 {
            s1
        } else {
            let s2 = dec_pass(b, s1, 1, p);
            if rem == 2 {
                s2
            } else {
                dec_planes(b, dec_clear_rows(b, dec_pass(b, s2, 2, p), 0), p, (rem - 3) as u32)
            }
        }
    }
}

/// A fresh decoder on the block: every sample insignificant and zero.
pub open spec fn dec_start(b: T1Block) -> T1DecState {
    T1DecState {
        mq: dec_initial(b.data),
        flags: Seq::new(b.w * b.h, |i: int| 0u8),
        mags: Seq::new(b.w * b.h, |i: int| 0u32),
        signs: Seq::new(b.w * b.h, |i: int| 0u8),
    }
}

/// The coefficients that the magnitudes and signs make.
pub open spec fn dec_coefficients(st: T1DecState) -> Seq<i32> {
    Seq::new(st.mags.len(), |j: int| if st.signs[j] == 0 { st.mags[j] as i32 } else { (-(st.mags[j] as int)) as i32 })
}

/// The coefficients of a code-block decoded from `data` (D.3): a cleanup pass on the top of the
/// `max_bitplanes - zero_bitplanes` magnitude bit-planes, then the passes of the lower ones, up to
/// `pass_count` passes in all.
pub open spec fn codeblock_coefficients(width: nat, height: nat, band: BandOrientation, max_bitplanes: u8,
    zero_bitplanes: u32, pass_count: u32, data: Seq<u8>) -> Seq<i32> {
    let b = T1Block { w: width, h: height, band, data };
    let top = (max_bitplanes - zero_bitplanes - 1) as u32;
    let st1 = dec_clear_rows(b, dec_pass(b, dec_start(b), 2, top), 0);
    dec_coefficients(dec_planes(b, st1, top, (pass_count - 1) as u32))
}

struct BlockDecoder<'a> {
    decoder: MqDecoder<'a>,
    flags: FlagGrid,
    magnitudes: Vec<u32>,
    signs: Vec<u8>,
    width: usize,
    height: usize,
    band: BandOrientation,
    planes: u32,
}

impl<'a> BlockDecoder<'a> {
    spec fn wf(&self) -> bool {
        &&& self.decoder.wf()
        &&& self.flags.wf()
        &&& self.flags.w() == self.width
        &&& self.flags.h() == self.height
        &&& self.magnitudes@.len() == self.width * self.height
        &&& self.signs@.len() == self.width * self.height
        &&& 1 <= self.planes <= 31
        &&& forall|i: int| 0 <= i < self.magnitudes@.len() ==> #[trigger] self.magnitudes@[i] < (1u32 << self.planes)
        &&& forall|i: int| 0 <= i < self.signs@.len() ==> #[trigger] self.signs@[i] <= 1
    }

    spec fn dstate(&self) -> T1DecState {
        T1DecState { mq: self.decoder.state(), flags: self.flags.cells(), mags: self.magnitudes@, signs: self.signs@ }
    }

    spec fn dblock(&self) -> T1Block {
        T1Block { w: self.width as nat, h: self.height as nat, band: self.band, data: self.decoder.data() }
    }

    spec fn same_block(&self, other: &Self) -> bool {
        &&& self.width == other.width
        &&& self.height == other.height
        &&& self.band == other.band
        &&& self.planes == other.planes
        &&& self.decoder.data() == other.decoder.data()
    }

    fn index(&self, x: usize, y: usize) -> (i: usize)
        requires
            self.wf(),
            x < self.width,
            y < self.height,
        ensures
            i == y * self.width + x,
            i < self.magnitudes@.len(),
    {
        let n = self.magnitudes.len();
        proof {
            assert(y * self.width + x < self.width * self.height) by (nonlinear_arith)
                requires x < self.width, y < self.height;
        }
        y * self.width + x
    }

    fn decode_bit(&mut self, ctx: u8) -> (b: u8)
        requires
            old(self).wf(),
            ctx < 19,
        ensures
            final(self).wf(),
            final(self).same_block(old(self)),
            final(self).flags == old(self).flags,
            final(self).magnitudes == old(self).magnitudes,
            final(self).signs == old(self).signs,
            (final(self).decoder.state(), b) == dec_decision(old(self).decoder.state(), old(self).decoder.data(), ctx as int),
            b <= 1,
    {
        self.decoder.decode_with_ctx(ctx)
    }

    fn new_significant(&mut self, bitplane: u32, x: usize, y: usize)
        requires
            old(self).wf(),
            bitplane < old(self).planes,
            x < old(self).width,
            y < old(self).height,
        ensures
            final(self).wf(),
            final(self).same_block(old(self)),
            final(self).dstate() == dec_new_sig(old(self).dblock(), old(self).dstate(), bitplane, x as int, y as int),
    {
        let pattern = self.flags.cardinal_sign_context(x, y);
        let ctx = sign_context(pattern);
        let prediction = sign_prediction_bit(pattern);
        let b = self.decode_bit(ctx);
        let sign_bit = b ^ prediction;
        assert(sign_bit <= 1) by (bit_vector)
            requires b <= 1, prediction <= 1, sign_bit == b ^ prediction;
        let idx = self.index(x, y);
        let old_mag = self.magnitudes[idx];
        proof { lemma_or_bit_bound(old_mag, bitplane, self.planes); }
        self.magnitudes.set(idx, old_mag | (1u32 << bitplane));
        self.signs.set(idx, sign_bit);
        self.flags.mark_significant(x, y, sign_bit);
        assert(self.dstate() =~= dec_new_sig(old(self).dblock(), old(self).dstate(), bitplane, x as int, y as int));
    }

    fn sigpass_step(&mut self, bitplane: u32, x: usize, y: usize)
        requires
            old(self).wf(),
            bitplane < old(self).planes,
            x < old(self).width,
            y < old(self).height,
        ensures
            final(self).wf(),
            final(self).same_block(old(self)),
            final(self).dstate() == dec_sig_step(old(self).dblock(), old(self).dstate(), bitplane, x as int, y as int),
    {
        proof {
            assert(y * self.width + x < self.width * self.height) by (nonlinear_arith)
                requires x < self.width, y < self.height;
        }
        if self.flags.is_significant(x, y) {
            return;
        }
        let mask = self.flags.neighbour_mask(x, y);
        if mask == 0 {
            return;
        }
        let ctx = zero_coding_context(self.band, mask);
        let plane_bit = self.decode_bit(ctx);
        self.flags.mark_visited(x, y);
        if plane_bit != 0 {
            self.new_significant(bitplane, x, y);
        }
    }

    fn refpass_step(&mut self, bitplane: u32, x: usize, y: usize)
        requires
            old(self).wf(),
            bitplane < old(self).planes,
            x < old(self).width,
            y < old(self).height,
        ensures
            final(self).wf(),
            final(self).same_block(old(self)),
            final(self).dstate() == dec_ref_step(old(self).dblock(), old(self).dstate(), bitplane, x as int, y as int),
    {
        proof {
            assert(y * self.width + x < self.width * self.height) by (nonlinear_arith)
                requires x < self.width, y < self.height;
        }
        if !self.flags.is_significant(x, y) || self.flags.is_visited(x, y) {
            return;
        }
        let has_sig_neighbor = self.flags.neighbour_mask(x, y) != 0;
        let ctx = magnitude_context(has_sig_neighbor, self.flags.has_refinement_history(x, y));
        let plane_bit = self.decode_bit(ctx);
        if plane_bit != 0 {
            let idx = self.index(x, y);
            let old_mag = self.magnitudes[idx];
            proof { lemma_or_bit_bound(old_mag, bitplane, self.planes); }
            self.magnitudes.set(idx, old_mag | (1u32 << bitplane));
        }
        self.flags.mark_refined(x, y);
    }

    fn cleanup_sample(&mut self, bitplane: u32, x: usize, y: usize)
        requires
            old(self).wf(),
            bitplane < old(self).planes,
            x < old(self).width,
            y < old(self).height,
        ensures
            final(self).wf(),
            final(self).same_block(old(self)),
            final(self).dstate() == dec_cleanup_sample(old(self).dblock(), old(self).dstate(), bitplane, x as int, y as int),
    {
        proof {
            assert(y * self.width + x < self.width * self.height) by (nonlinear_arith)
                requires x < self.width, y < self.height;
        }
        if self.flags.is_significant(x, y) || self.flags.is_visited(x, y) {
            self.flags.clear_visited(x, y);
            return;
        }
        let mask = self.flags.neighbour_mask(x, y);
        let ctx = if mask != 0 { zero_coding_context(self.band, mask) } else { T1_CTXNO_ZC };
        let plane_bit = self.decode_bit(ctx);
        self.flags.clear_visited(x, y);
        if plane_bit != 0 {
            self.new_significant(bitplane, x, y);
        }
    }

    fn cleanup_stripe(&mut self, bitplane: u32, x: usize, k: usize)
        requires
            old(self).wf(),
            bitplane < old(self).planes,
            x < old(self).width,
            k + 4 <= old(self).height,
        ensures
            final(self).wf(),
            final(self).same_block(old(self)),
            final(self).dstate() == dec_cleanup_stripe(old(self).dblock(), old(self).dstate(), bitplane, x as int, k as int),
    {
        let ghost b = self.dblock();
        let ghost target = dec_cleanup_stripe(b, self.dstate(), bitplane, x as int, k as int);
        if self.flags.stripe_is_clean(x, k, 4) {
            if self.decode_bit(T1_CTXNO_AGG) == 0 {
                let mut ci: usize = 0;
                while ci < 4
                    invariant
                        self.wf(),
                        self.same_block(old(self)),
                        b == self.dblock(),
                        x < self.width,
                        k + 4 <= self.height,
                        ci <= 4,
                        dec_clear_column(b, self.dstate(), x as int, k as int, ci as int, 4) == target,
                    decreases 4 - ci,
                {
                    proof {
                        assert((k + ci) * self.width + x < self.width * self.height) by (nonlinear_arith)
                            requires x < self.width, k + ci < self.height;
                    }
                    let ghost before = self.dstate();
                    self.flags.clear_visited(x, k + ci);
                    proof {
                        let i = (k + ci) * b.w + x;
                        assert(self.dstate() =~= T1DecState { flags: before.flags.update(i, without_bit(before.flags[i], FLAG_VISITED)), ..before });
                    }
                    ci = ci + 1;
                }
                return;
            }
            let hi = self.decode_bit(T1_CTXNO_UNI);
            let lo = self.decode_bit(T1_CTXNO_UNI);
            let runlen = (hi * 2 + lo) as usize;
            let y = k + runlen;
            self.new_significant(bitplane, x, y);
            proof {
                assert(y * self.width + x < self.width * self.height) by (nonlinear_arith)
                    requires x < self.width, y < self.height;
            }
            let ghost before = self.dstate();
            self.flags.clear_visited(x, y);
            proof {
                let i = y * b.w + x;
                assert(self.dstate() =~= T1DecState { flags: before.flags.update(i, without_bit(before.flags[i], FLAG_VISITED)), ..before });
            }
            let mut ci = runlen + 1;
            while ci < 4
                invariant
                    self.wf(),
                    self.same_block(old(self)),
                    b == self.dblock(),
                    bitplane < self.planes,
                    x < self.width,
                    k + 4 <= self.height,
                    ci <= 4,
                    dec_column(b, self.dstate(), 2, bitplane, x as int, k as int, ci as int, 4) == target,
                decreases 4 - ci,
            {
                self.cleanup_sample(bitplane, x, k + ci);
                ci = ci + 1;
            }
        } else {
            let mut ci: usize = 0;
            while ci < 4
                invariant
                    self.wf(),
                    self.same_block(old(self)),
                    b == self.dblock(),
                    bitplane < self.planes,
                    x < self.width,
                    k + 4 <= self.height,
                    ci <= 4,
                    dec_column(b, self.dstate(), 2, bitplane, x as int, k as int, ci as int, 4) == target,
                decreases 4 - ci,
            {
                self.cleanup_sample(bitplane, x, k + ci);
                ci = ci + 1;
            }
        }
    }

    /// Runs one pass (0: significance propagation, 1: magnitude refinement, 2: cleanup) over the
    /// block in stripe order: stripes of four rows, column by column.
    fn pass(&mut self, kind: u8, bitplane: u32)
        requires
            old(self).wf(),
            bitplane < old(self).planes,
            kind <= 2,
        ensures
            final(self).wf(),
            final(self).same_block(old(self)),
            final(self).dstate() == dec_pass(old(self).dblock(), old(self).dstate(), kind, bitplane),
    {
        let ghost b = self.dblock();
        let ghost st0 = self.dstate();
        let height = self.height;
        let width = self.width;
        let full = (height / 4) * 4;
        let ghost stripes_target = dec_stripes(b, st0, kind, bitplane, 0, (height / 4) as nat);
        let mut k: usize = 0;
        while k < full
            invariant
                self.wf(),
                self.same_block(old(self)),
                b == self.dblock(),
                height == self.height,
                width == self.width,
                bitplane < self.planes,
                full == (height / 4) * 4,
                k <= full,
                k % 4 == 0,
                kind <= 2,
                dec_stripes(b, self.dstate(), kind, bitplane, k as int, ((full - k) / 4) as nat) == stripes_target,
            decreases full - k,
        {
            let ghost row_target = dec_row(b, self.dstate(), kind, bitplane, k as int, 0);
            let mut x: usize = 0;
            while x < width
                invariant
                    self.wf(),
                    self.same_block(old(self)),
                    b == self.dblock(),
                    height == self.height,
                    width == self.width,
                    bitplane < self.planes,
                    full == (height / 4) * 4,
                    k + 4 <= full,
                    x <= width,
                    kind <= 2,
                    dec_row(b, self.dstate(), kind, bitplane, k as int, x as int) == row_target,
                decreases width - x,
            {
                if kind == 2 {
                    self.cleanup_stripe(bitplane, x, k);
                } else {
                    let ghost col_target = dec_column(b, self.dstate(), kind, bitplane, x as int, k as int, 0, 4);
                    let mut ci: usize = 0;
                    while ci < 4
                        invariant
                            self.wf(),
                            self.same_block(old(self)),
                            b == self.dblock(),
                            height == self.height,
                            width == self.width,
                            bitplane < self.planes,
                            k + 4 <= full,
                            full <= height,
                            x < width,
                            ci <= 4,
                            kind < 2,
                            dec_column(b, self.dstate(), kind, bitplane, x as int, k as int, ci as int, 4) == col_target,
                        decreases 4 - ci,
                    {
                        if kind == 0 {
                            self.sigpass_step(bitplane, x, k + ci);
                        } else {
                            self.refpass_step(bitplane, x, k + ci);
                        }
                        ci = ci + 1;
                    }
                }
                x = x + 1;
            }
            k = k + 4;
        }
        let rem = height - full;
        if rem > 0 {
            let ghost rem_target = dec_rem_row(b, self.dstate(), kind, bitplane, full as int, rem as int, 0);
            let mut x: usize = 0;
            while x < width
                invariant
                    self.wf(),
                    self.same_block(old(self)),
                    b == self.dblock(),
                    height == self.height,
                    width == self.width,
                    bitplane < self.planes,
                    full + rem == height,
                    x <= width,
                    kind <= 2,
                    dec_rem_row(b, self.dstate(), kind, bitplane, full as int, rem as int, x as int) == rem_target,
                decreases width - x,
            {
                let ghost col_target = dec_column(b, self.dstate(), kind, bitplane, x as int, full as int, 0, rem as int);
                let mut ci: usize = 0;
                while ci < rem
                    invariant
                        self.wf(),
                        self.same_block(old(self)),
                        b == self.dblock(),
                        height == self.height,
                        width == self.width,
                        bitplane < self.planes,
                        full + rem == height,
                        x < width,
                        ci <= rem,
                        kind <= 2,
                        dec_column(b, self.dstate(), kind, bitplane, x as int, full as int, ci as int, rem as int) == col_target,
                    decreases rem - ci,
                {
                    if kind == 0 {
                        self.sigpass_step(bitplane, x, full + ci);
                    } else if kind == 1 {
                        self.refpass_step(bitplane, x, full + ci);
                    } else {
                        self.cleanup_sample(bitplane, x, full + ci);
                    }
                    ci = ci + 1;
                }
                x = x + 1;
            }
        }
    }

    fn clear_visited_all(&mut self)
        requires
            old(self).wf(),
        ensures
            final(self).wf(),
            final(self).same_block(old(self)),
            final(self).dstate() == dec_clear_rows(old(self).dblock(), old(self).dstate(), 0),
    {
        let ghost b = self.dblock();
        let ghost target = dec_clear_rows(b, self.dstate(), 0);
        let height = self.height;
        let width = self.width;
        let mut y: usize = 0;
        while y < height
            invariant
                self.wf(),
                self.same_block(old(self)),
                b == self.dblock(),
                height == self.height,
                width == self.width,
                y <= height,
                dec_clear_rows(b, self.dstate(), y as int) == target,
            decreases height - y,
        {
            let ghost row_target = dec_clear_row(b, self.dstate(), y as int, 0);
            let mut x: usize = 0;
            while x < width
                invariant
                    self.wf(),
                    self.same_block(old(self)),
                    b == self.dblock(),
                    height == self.height,
                    width == self.width,
                    y < height,
                    x <= width,
                    dec_clear_row(b, self.dstate(), y as int, x as int) == row_target,
                decreases width - x,
            {
                proof {
                    assert(y * self.width + x < self.width * self.height) by (nonlinear_arith)
                        requires x < self.width, y < self.height;
                }
                let ghost before = self.dstate();
                self.flags.clear_visited(x, y);
                proof {
                    let i = y * b.w + x;
                    assert(self.dstate() =~= T1DecState { flags: before.flags.update(i, without_bit(before.flags[i], FLAG_VISITED)), ..before });
                }
                x = x + 1;
            }
            y = y + 1;
        }
    }
}


/// The number of passes `p` that `mb` magnitude bit-planes allow: a cleanup pass on the top one
/// and three passes on each lower one.
pub open spec fn max_passes(mb: nat) -> nat {
    1 + 3 * ((mb - 1) as nat)
}

/// Why a code-block with these parameters cannot be decoded, given that it has passes.
pub open spec fn codeblock_issue(max_bitplanes: u8, zero_bitplanes: u32, pass_count: u32, data_len: nat) -> bool {
    data_len == 0 || zero_bitplanes > 255 || zero_bitplanes > max_bitplanes
        || max_bitplanes - zero_bitplanes == 0
        || pass_count > max_passes((max_bitplanes - zero_bitplanes) as nat)
        || max_bitplanes - zero_bitplanes > 31
}

/// The message with which a code-block that has passes is refused, by the first check it fails.
pub open spec fn codeblock_refusal(width: usize, height: usize, max_bitplanes: u8, zero_bitplanes: u32, pass_count: u32,
    data_len: nat) -> Seq<char> {
    let mb = (max_bitplanes - zero_bitplanes) as nat;
    if width * height > usize::MAX {
        "code-block coefficient count overflow"@
    } else if data_len == 0 {
        "non-empty code-block has no compressed bytes"@
    } else if zero_bitplanes > 255 {
        "zero-bitplane count exceeds supported range"@
    } else if zero_bitplanes > max_bitplanes {
        "zero-bitplane count exceeds subband bit-plane count"@
    } else if mb == 0 {
        "non-empty code-block has no magnitude bit-planes"@
    } else if pass_count > max_passes(mb) {
        "code-block pass count "@ + decimal(pass_count as nat) + " exceeds maximum "@ + decimal(max_passes(mb))
            + " for "@ + decimal(mb) + " magnitude bit-planes"@
    } else {
        "code-block has more magnitude bit-planes than 32-bit coefficients hold"@
    }
}

/// Decodes one code-block of `width` by `height` samples in subband `band` from the MQ codeword
/// `data`, running `pass_count` passes from the top of the `max_bitplanes - zero_bitplanes`
/// magnitude bit-planes.
pub fn decode_codeblock(
    width: usize,
    height: usize,
    band: BandOrientation,
    max_bitplanes: u8,
    zero_bitplanes: u32,
    pass_count: u32,
    data: &[u8],
) -> (r: Result<DecodedCodeBlockCoefficients>)
    ensures
        r is Ok <==> width * height <= usize::MAX
            && (pass_count == 0 || !codeblock_issue(max_bitplanes, zero_bitplanes, pass_count, data@.len())),
        r matches Err(e) ==> e is DecodeFailed,
        r matches Err(e) ==> e.spec_message() == codeblock_refusal(width, height, max_bitplanes, zero_bitplanes,
            pass_count, data@.len()),
        r matches Ok(d) ==> d.width == width && d.height == height && d.coefficients@.len() == width * height,
        r matches Ok(d) ==> pass_count == 0 ==> forall|i: int| 0 <= i < d.coefficients@.len() ==> #[trigger] d.coefficients@[i] == 0,
        r matches Ok(d) ==> pass_count > 0 ==> forall|i: int| 0 <= i < d.coefficients@.len() ==>
            -pow2((max_bitplanes - zero_bitplanes) as nat) < #[trigger] d.coefficients@[i] < pow2((max_bitplanes - zero_bitplanes) as nat),
        r matches Ok(d) ==> pass_count > 0 ==> d.coefficients@ == codeblock_coefficients(width as nat, height as nat, band,
            max_bitplanes, zero_bitplanes, pass_count, data@),
{
    let count = match width.checked_mul(height) {
        Some(c) => c,
        None => { return Err(decode_failed("code-block coefficient count overflow")); },
    };
    if pass_count == 0 {
        let mut zeros: Vec<i32> = Vec::new();
        let mut i: usize = 0;
        while i < count
            invariant
                i <= count,
                zeros@.len() == i,
                forall|j: int| 0 <= j < i ==> #[trigger] zeros@[j] == 0,
            decreases count - i,
        {
            zeros.push(0);
            i = i + 1;
        }
        return Ok(DecodedCodeBlockCoefficients { width, height, coefficients: zeros });
    }
    if data.len() == 0 {
        return Err(decode_failed("non-empty code-block has no compressed bytes"));
    }
    if zero_bitplanes > 255 {
        return Err(decode_failed("zero-bitplane count exceeds supported range"));
    }
    if zero_bitplanes > max_bitplanes as u32 {
        return Err(decode_failed("zero-bitplane count exceeds subband bit-plane count"));
    }
    let mb = max_bitplanes as u32 - zero_bitplanes;
    if mb == 0 {
        return Err(decode_failed("non-empty code-block has no magnitude bit-planes"));
    }
    let maxp = 1 + 3 * (mb - 1);
    if pass_count > maxp {
        let mut m = String::from_str("code-block pass count ");
        append_decimal(&mut m, pass_count as u64);
        m.append(" exceeds maximum ");
        append_decimal(&mut m, maxp as u64);
        m.append(" for ");
        append_decimal(&mut m, mb as u64);
        m.append(" magnitude bit-planes");
        return Err(Jp2LamError::DecodeFailed(m));
    }
    if mb > 31 {
        return Err(decode_failed("code-block has more magnitude bit-planes than 32-bit coefficients hold"));
    }
    let mut magnitudes: Vec<u32> = Vec::new();
    let mut signs: Vec<u8> = Vec::new();
    let mut i: usize = 0;
    assert(0u32 < (1u32 << mb)) by (bit_vector) requires mb <= 31;
    while i < count
        invariant
            i <= count,
            magnitudes@.len() == i,
            signs@.len() == i,
            forall|j: int| 0 <= j < i ==> #[trigger] magnitudes@[j] == 0,
            forall|j: int| 0 <= j < i ==> #[trigger] signs@[j] == 0,
        decreases count - i,
    {
        magnitudes.push(0);
        signs.push(0);
        i = i + 1;
    }
    let mut st = BlockDecoder {
        decoder: MqDecoder::new(data),
        flags: FlagGrid::new(width, height),
        magnitudes,
        signs,
        width,
        height,
        band,
        planes: mb,
    };
    let ghost b = st.dblock();
    proof {
        assert(b == T1Block { w: width as nat, h: height as nat, band, data: data@ });
        assert(st.dstate() =~= dec_start(b));
    }
    let top = mb - 1;
    st.pass(2, top);
    st.clear_visited_all();
    let mut remaining = pass_count - 1;
    let mut bitplane = top;
    let ghost target = dec_planes(b, st.dstate(), top, remaining);
    loop
        invariant_except_break
            dec_planes(b, st.dstate(), bitplane, remaining) == target,
        invariant
            st.wf(),
            st.width == width,
            st.height == height,
            st.planes == mb,
            b == st.dblock(),
            bitplane <= top,
            top < mb,
        ensures
            st.dstate() == target,
        decreases bitplane,
    {
        if bitplane == 0 || remaining == 0 {
            break;
        }
        bitplane = bitplane - 1;
        st.pass(0, bitplane);
        remaining = remaining - 1;
        if remaining == 0 {
            break;
        }
        st.pass(1, bitplane);
        remaining = remaining - 1;
        if remaining == 0 {
            break;
        }
        st.pass(2, bitplane);
        remaining = remaining - 1;
        st.clear_visited_all();
    }
    let ghost fin = st.dstate();
    let mut coefficients: Vec<i32> = Vec::new();
    let mut j: usize = 0;
    proof { lemma_shift_is_pow2(mb); }
    while j < count
        invariant
            st.wf(),
            st.width == width,
            st.height == height,
            st.planes == mb,
            fin == st.dstate(),
            count == width * height,
            (1u32 << mb) as nat == pow2(mb as nat),
            mb <= 31,
            j <= count,
            coefficients@.len() == j,
            forall|t: int| 0 <= t < j ==> -pow2(mb as nat) < #[trigger] coefficients@[t] < pow2(mb as nat),
            forall|t: int| 0 <= t < j ==> #[trigger] coefficients@[t] == dec_coefficients(fin)[t],
        decreases count - j,
    {
        let mag = st.magnitudes[j];
        proof { lemma_pow2_le_31(mb as nat); }
        let v = mag as i32;
        coefficients.push(if st.signs[j] == 0 { v } else { -v });
        j = j + 1;
    }
    proof {
        assert(coefficients@ =~= dec_coefficients(fin));
    }
    Ok(DecodedCodeBlockCoefficients { width, height, coefficients })
}

proof fn lemma_pow2_le_31(k: nat)
    requires
        k <= 31,
    ensures
        pow2(k) <= 0x8000_0000,
    decreases k,
{
    if k > 0 {
        lemma_pow2_le_31((k - 1) as nat);
        assert(pow2((k - 1) as nat) <= 0x4000_0000) by {
            lemma_pow2_mono((k - 1) as nat, 30);
            assert(pow2(30) == 0x4000_0000) by { reveal_with_fuel(pow2, 31); }
        }
    }
}

proof fn lemma_pow2_mono(a: nat, b: nat)
    requires
        a <= b,
    ensures
        pow2(a) <= pow2(b),
    decreases b,
{
    if a < b {
        lemma_pow2_mono(a, (b - 1) as nat);
    }
}

proof fn lemma_shift_is_pow2(k: u32)
    requires
        k <= 31,
    ensures
        (1u32 << k) as nat == pow2(k as nat),
    decreases k,
{
    if k == 0 {
        assert((1u32 << 0u32) == 1) by (bit_vector);
    } else {
        lemma_shift_is_pow2((k - 1) as u32);
        let km = (k - 1) as u32;
        assert((1u32 << k) == 2 * (1u32 << km)) by (bit_vector)
            requires k <= 31, km == k - 1, k >= 1;
    }
}

} // verus!

//! Tier-1 encoding of one code-block (Annex D): the significance propagation, magnitude
//! refinement and cleanup passes over the block's bit-planes, coded with the MQ coder either as
//! one segment terminated at its end, with each pass's length taken from the coder as it goes,
//! or with every pass terminated as a segment of its own.
use vstd::prelude::*;
use crate::error::Result;
use crate::rate_types::PassKind;
use crate::mq::{MqCoder, MqEncView, T1_CTXNO_AGG, T1_CTXNO_UNI, T1_CTXNO_ZC, enc_codeword, enc_decision, enc_flush, enc_initial, initial_contexts};
use crate::plan_types::BandOrientation;
use crate::tier1::{sig_total, FLAG_NEG, FLAG_REFINED, FLAG_SIG, FLAG_VISITED, FlagGrid, cells_cardinal, cells_mask, cells_stripe_clean, has, magnitude_context, mr_context, sc_context, sc_xor, sign_context, sign_prediction_bit, with_bit, without_bit, zc_context, zero_coding_context};

verus! {

/// The magnitude of a coefficient.
pub open spec fn abs_i32(v: i32) -> nat {
    if v < 0 { (-(v as int)) as nat } else { v as nat }
}

/// The number of bits in the binary form of `m`.
pub open spec fn bit_length(m: nat) -> nat
    decreases m,
{
    if m == 0 { 0 } else { 1 + bit_length(m / 2) }
}

/// The largest magnitude among the first `n` coefficients.
pub open spec fn max_abs(s: Seq<i32>, n: nat) -> nat
    decreases n,
{
    if n == 0 {
        0
    } else {
        let m = max_abs(s, (n - 1) as nat);
        let a = abs_i32(s[n - 1]);
        if a > m { a } else { m }
    }
}

/// The passes coded for a block with `planes` magnitude bit-planes: a cleanup pass on the top
/// one and three passes on each lower one.
pub open spec fn pass_count(planes: nat) -> nat {
    if planes == 0 { 0 } else { (3 * planes - 2) as nat }
}

/// How a pass's symbols are coded: by the MQ coder, or raw (bypass).
#[derive(Debug, Clone, Copy, PartialEq, Eq, Structural)]
pub enum PassCodingMode {
    Mq,
    Raw,
}

/// How a pass's segment is terminated.
#[derive(Debug, Clone, Copy, PartialEq, Eq, Structural)]
pub enum PassTermination {
    TermAll,
    ErTerm,
}

/// One coding pass: its kind, the bit-plane it codes, its index in the block, how it is coded
/// and terminated, whether it carries a segmentation mark, how many coefficients were
/// significant before it and became significant in it, its length in the segment, the length
/// of the segment up to its end, whether the segment ends with it, and the segment's bytes when
/// it does.
#[derive(Debug, Clone)]
pub struct EncodedPass {
    pub kind: PassKind,
    pub bitplane: u8,
    pub pass_index: u16,
    pub coding_mode: PassCodingMode,
    pub termination: PassTermination,
    pub segmark: bool,
    pub significant_before: usize,
    pub newly_significant: usize,
    pub length: usize,
    pub cumulative_length: usize,
    pub terminated: bool,
    pub bytes: Vec<u8>,
}

/// The kind of pass `j` of a block: a cleanup pass first, then significance propagation,
/// magnitude refinement and cleanup on each lower bit-plane.
pub open spec fn pass_kind_at(j: nat) -> PassKind {
    if j == 0 || (j - 1) % 3 == 2 { PassKind::Cleanup }
    else if (j - 1) % 3 == 0 { PassKind::SignificancePropagation }
    else { PassKind::MagnitudeRefinement }
}

/// The bit-plane pass `j` codes of a block whose top magnitude bit-plane is `top`.
pub open spec fn pass_bitplane_at(top: nat, j: nat) -> int {
    if j == 0 { top as int } else { top - 1 - (j - 1) / 3 }
}

/// Pass `j` of a block with top bit-plane `top`: its kind, bit-plane and index, and its
/// cumulative length the sum of the lengths up to it.
pub open spec fn pass_laid_out(passes: Seq<EncodedPass>, top: nat, j: int) -> bool {
    &&& passes[j].kind == pass_kind_at(j as nat)
    &&& passes[j].bitplane == pass_bitplane_at(top, j as nat)
    &&& passes[j].pass_index == j
    &&& passes[j].cumulative_length == lengths_sum(passes, (j + 1) as nat)
}

/// A coded code-block: its rectangle, its bit-plane counts, its passes and its segment.
#[derive(Debug, Clone)]
pub struct EncodedCodeBlock {
    pub x0: u32,
    pub y0: u32,
    pub x1: u32,
    pub y1: u32,
    pub magnitude_bitplanes: u8,
    pub zero_bitplanes: u8,
    pub passes: Vec<EncodedPass>,
    pub data: Vec<u8>,
}

/// The sum of the lengths of the first `n` passes.
pub open spec fn lengths_sum(p: Seq<EncodedPass>, n: nat) -> nat
    decreases n,
{
    if n == 0 { 0 } else { lengths_sum(p, (n - 1) as nat) + p[n - 1].length as nat }
}

/// The passes of a coded block form one segment: their lengths add up to its bytes, and only
/// the last pass ends it.
pub open spec fn passes_form_segment(passes: Seq<EncodedPass>, data: Seq<u8>) -> bool {
    &&& lengths_sum(passes, passes.len()) == data.len()
    &&& forall|i: int| 0 <= i < passes.len() ==> (#[trigger] passes[i]).terminated == (i == passes.len() - 1)
}

/// What a code-block encoder holds: the MQ coder and the flags.
#[verifier::ext_equal]
pub struct T1EncState {
    pub mq: MqEncView,
    pub flags: Seq<u8>,
}

/// The code-block being coded: its size, its subband, and each sample's magnitude and sign.
pub struct T1Source {
    pub w: nat,
    pub h: nat,
    pub band: BandOrientation,
    pub mags: Seq<u32>,
    pub signs: Seq<u8>,
}

/// Bit `bp` of the magnitude of sample `(x, y)`.
pub open spec fn enc_bit(src: T1Source, bp: u32, x: int, y: int) -> u8 {
    ((src.mags[y * src.w + x] >> bp) & 1) as u8
}

/// Sample `(x, y)` becomes significant: its sign is coded (D.3.2).
pub open spec fn enc_new_sig(src: T1Source, st: T1EncState, x: int, y: int) -> T1EncState {
    let i = y * src.w + x;
    let sign: u8 = if src.signs[i] != 0 { 1 } else { 0 };
    let pattern = cells_cardinal(st.flags, src.w, src.h, x, y);
    let f = with_bit(st.flags[i], FLAG_SIG);
    T1EncState {
        mq: enc_decision(st.mq, sc_context(pattern) as int, sign ^ sc_xor(pattern)),
        flags: st.flags.update(i, if sign != 0 { with_bit(f, FLAG_NEG) } else { f }),
    }
}

/// The significance propagation pass at sample `(x, y)` (D.3.1).
pub open spec fn enc_sig_step(src: T1Source, st: T1EncState, bp: u32, x: int, y: int) -> T1EncState {
    let i = y * src.w + x;
    let mask = cells_mask(st.flags, src.w, src.h, x, y);
    if has(st.flags[i], FLAG_SIG) || mask == 0 {
        st
    } else {
        let bit = enc_bit(src, bp, x, y);
        let st2 = T1EncState {
            mq: enc_decision(st.mq, zc_context(src.band, mask) as int, bit),
            flags: st.flags.update(i, with_bit(st.flags[i], FLAG_VISITED)),
        };
        if bit == 1 { enc_new_sig(src, st2, x, y) } else { st2 }
    }
}

/// The magnitude refinement pass at sample `(x, y)` (D.3.3).
pub open spec fn enc_ref_step(src: T1Source, st: T1EncState, bp: u32, x: int, y: int) -> T1EncState {
    let i = y * src.w + x;
    if !(has(st.flags[i], FLAG_SIG)) || has(st.flags[i], FLAG_VISITED) {
        st
    } else {
        let ctx = mr_context(cells_mask(st.flags, src.w, src.h, x, y) != 0, has(st.flags[i], FLAG_REFINED));
        T1EncState {
            mq: enc_decision(st.mq, ctx as int, enc_bit(src, bp, x, y)),
            flags: st.flags.update(i, with_bit(st.flags[i], FLAG_REFINED)),
        }
    }
}

/// The cleanup pass at sample `(x, y)` outside run-length mode (D.3.4).
pub open spec fn enc_cleanup_sample(src: T1Source, st: T1EncState, bp: u32, x: int, y: int) -> T1EncState {
    let i = y * src.w + x;
    let cleared = st.flags.update(i, without_bit(st.flags[i], FLAG_VISITED));
    if has(st.flags[i], FLAG_SIG) || has(st.flags[i], FLAG_VISITED) {
        T1EncState { flags: cleared, ..st }
    } else {
        let mask = cells_mask(st.flags, src.w, src.h, x, y);
        let ctx = if mask != 0 { zc_context(src.band, mask) } else { T1_CTXNO_ZC };
        let bit = enc_bit(src, bp, x, y);
        let st2 = T1EncState { mq: enc_decision(st.mq, ctx as int, bit), flags: cleared };
        if bit == 1 { enc_new_sig(src, st2, x, y) } else { st2 }
    }
}

/// One sample of a pass: 0 significance propagation, 1 magnitude refinement, 2 cleanup.
pub open spec fn enc_sample(src: T1Source, st: T1EncState, kind: u8, bp: u32, x: int, y: int) -> T1EncState {
    if kind == 0 { enc_sig_step(src, st, bp, x, y) }
    else if kind == 1 { enc_ref_step(src, st, bp, x, y) }
    else { enc_cleanup_sample(src, st, bp, x, y) }
}

/// Rows `k + from .. k + to` of column `x`, one sample after the other.
pub open spec fn enc_column(src: T1Source, st: T1EncState, kind: u8, bp: u32, x: int, k: int, from: int, to: int) -> T1EncState
    decreases to - from,
{
    if from >= to { st } else { enc_column(src, enc_sample(src, st, kind, bp, x, k + from), kind, bp, x, k, from + 1, to) }
}

/// The visited marks of rows `k + from .. k + to` of column `x` cleared.
pub open spec fn enc_clear_column(src: T1Source, st: T1EncState, x: int, k: int, from: int, to: int) -> T1EncState
    decreases to - from,
{
    if from >= to {
        st
    } else {
        let i = (k + from) * src.w + x;
        enc_clear_column(src, T1EncState { flags: st.flags.update(i, without_bit(st.flags[i], FLAG_VISITED)), ..st }, x, k, from + 1, to)
    }
}

/// The first row from `k + ci` on, within the stripe, whose magnitude has bit `bp`; 4 for none.
pub open spec fn enc_run(src: T1Source, bp: u32, x: int, k: int, ci: int) -> int
    decreases 4 - ci,
{
    if ci >= 4 { 4 } else if enc_bit(src, bp, x, k + ci) == 1 { ci } else { enc_run(src, bp, x, k, ci + 1) }
}

/// The cleanup pass over the full stripe column of four samples at `(x, k)`, with run-length mode
/// when all four are clean (D.3.4).
pub open spec fn enc_cleanup_stripe(src: T1Source, st: T1EncState, bp: u32, x: int, k: int) -> T1EncState {
    if cells_stripe_clean(st.flags, src.w, src.h, x, k, 4) {
        let run = enc_run(src, bp, x, k, 0);
        if run == 4 {
            enc_clear_column(src, T1EncState { mq: enc_decision(st.mq, T1_CTXNO_AGG as int, 0), ..st }, x, k, 0, 4)
        } else {
            let mq1 = enc_decision(st.mq, T1_CTXNO_AGG as int, 1);
            let mq2 = enc_decision(mq1, T1_CTXNO_UNI as int, (run / 2) as u8);
            let mq3 = enc_decision(mq2, T1_CTXNO_UNI as int, (run % 2) as u8);
            let y = k + run;
            let st4 = enc_new_sig(src, T1EncState { mq: mq3, ..st }, x, y);
            let i = y * src.w + x;
            let st5 = T1EncState { flags: st4.flags.update(i, without_bit(st4.flags[i], FLAG_VISITED)), ..st4 };
            enc_column(src, st5, 2, bp, x, k, run + 1, 4)
        }
    } else {
        enc_column(src, st, 2, bp, x, k, 0, 4)
    }
}

/// A pass over the stripe columns of rows `k..k + 4`, from column `x` to the right edge.
pub open spec fn enc_row(src: T1Source, st: T1EncState, kind: u8, bp: u32, k: int, x: int) -> T1EncState
    decreases src.w - x,
{
    if x >= src.w {
        st
    } else {
        let st2 = if kind == 2 { enc_cleanup_stripe(src, st, bp, x, k) } else { enc_column(src, st, kind, bp, x, k, 0, 4) };
        enc_row(src, st2, kind, bp, k, x + 1)
    }
}

/// A pass over `n` full stripes from row `k` down.
pub open spec fn enc_stripes(src: T1Source, st: T1EncState, kind: u8, bp: u32, k: int, n: nat) -> T1EncState
    decreases n,
{
    if n == 0 { st } else { enc_stripes(src, enc_row(src, st, kind, bp, k, 0), kind, bp, k + 4, (n - 1) as nat) }
}

/// A pass over the last, short stripe of `rem` rows from row `full`, from column `x` on.
pub open spec fn enc_rem_row(src: T1Source, st: T1EncState, kind: u8, bp: u32, full: int, rem: int, x: int) -> T1EncState
    decreases src.w - x,
{
    if x >= src.w { st } else { enc_rem_row(src, enc_column(src, st, kind, bp, x, full, 0, rem), kind, bp, full, rem, x + 1) }
}

/// One pass over the code-block in stripe order (D.3).
pub open spec fn enc_pass(src: T1Source, st: T1EncState, kind: u8, bp: u32) -> T1EncState {
    let full = (src.h / 4) * 4;
    let st1 = enc_stripes(src, st, kind, bp, 0, src.h / 4);
    if src.h > full { enc_rem_row(src, st1, kind, bp, full as int, src.h - full, 0) } else { st1 }
}

/// The visited marks of row `y` cleared from column `x` to the right edge.
pub open spec fn enc_clear_row(src: T1Source, st: T1EncState, y: int, x: int) -> T1EncState
    decreases src.w - x,
{
    if x >= src.w {
        st
    } else {
        let i = y * src.w + x;
        enc_clear_row(src, T1EncState { flags: st.flags.update(i, without_bit(st.flags[i], FLAG_VISITED)), ..st }, y, x + 1)
    }
}

/// The visited marks of rows `y..` cleared.
pub open spec fn enc_clear_rows(src: T1Source, st: T1EncState, y: int) -> T1EncState
    decreases src.h - y,
{
    if y >= src.h { st } else { enc_clear_rows(src, enc_clear_row(src, st, y, 0), y + 1) }
}

/// The three passes of each bit-plane below `bp`, the visited marks cleared after each cleanup.
pub open spec fn enc_planes(src: T1Source, st: T1EncState, bp: u32) -> T1EncState
    decreases bp,
{
    if bp == 0 {
        st
    } else {
        let p = (bp - 1) as u32;
        enc_planes(src, enc_clear_rows(src, enc_pass(src, enc_pass(src, enc_pass(src, st, 0, p), 1, p), 2, p), 0), p)
    }
}

/// The magnitudes and signs of a code-block's coefficients.
pub open spec fn t1_source(coefficients: Seq<i32>, width: nat, height: nat, band: BandOrientation) -> T1Source {
    T1Source {
        w: width,
        h: height,
        band,
        mags: Seq::new(coefficients.len(), |i: int| abs_i32(coefficients[i]) as u32),
        signs: Seq::new(coefficients.len(), |i: int| if coefficients[i] < 0 { 1u8 } else { 0u8 }),
    }
}

/// The MQ codeword of a code-block (D.3): a cleanup pass on its top magnitude bit-plane, then
/// the three passes of each lower one, terminated once at the end; empty when every
/// coefficient is zero.
pub open spec fn t1_codeword(coefficients: Seq<i32>, width: nat, height: nat, band: BandOrientation) -> Seq<u8> {
    let planes = bit_length(max_abs(coefficients, coefficients.len()));
    if planes == 0 {
        Seq::empty()
    } else {
        let src = t1_source(coefficients, width, height, band);
        let top = (planes - 1) as u32;
        let st0 = T1EncState { mq: enc_initial(initial_contexts()), flags: Seq::new(width * height, |i: int| 0u8) };
        let st1 = enc_clear_rows(src, enc_pass(src, st0, 2, top), 0);
        enc_codeword(enc_flush(enc_planes(src, st1, top).mq).out)
    }
}

/// The encoder's state at the start of bit-plane `b`'s passes (below `top`), the visited marks
/// cleared: after the top cleanup pass, then the three passes of each plane above `b`.
pub open spec fn plane_state(src: T1Source, init: T1EncState, top: u32, b: u32) -> T1EncState
    decreases top - b,
{
    if b >= top {
        enc_clear_rows(src, enc_pass(src, init, 2, top), 0)
    } else {
        let prev = plane_state(src, init, top, (b + 1) as u32);
        enc_clear_rows(src, enc_pass(src, enc_pass(src, enc_pass(src, prev, 0, b), 1, b), 2, b), 0)
    }
}

/// The MQ coder's byte count after pass `j` of a block whose top bit-plane is `top`.
pub open spec fn pass_snapshot(src: T1Source, init: T1EncState, top: u32, j: nat) -> int {
    if j == 0 {
        enc_pass(src, init, 2, top).mq.out.len() - 1
    } else {
        let p = (top - 1 - (j - 1) / 3) as u32;
        let s0 = plane_state(src, init, top, (p + 1) as u32);
        let s1 = enc_pass(src, s0, 0, p);
        let s2 = enc_pass(src, s1, 1, p);
        let s3 = enc_pass(src, s2, 2, p);
        (if (j - 1) % 3 == 0 { s1 } else if (j - 1) % 3 == 1 { s2 } else { s3 }).mq.out.len() - 1
    }
}

/// The significant coefficients before pass `j`, and those that become significant in it, by
/// the significance flags of the coder's states: the refinement pass counts those significant
/// before the significance propagation pass of its plane, and makes none significant.
pub open spec fn pass_significance(src: T1Source, init: T1EncState, top: u32, j: nat) -> (nat, nat) {
    if j == 0 {
        let a = enc_pass(src, init, 2, top).flags;
        (0, sig_total(a, a.len()))
    } else {
        let p = (top - 1 - (j - 1) / 3) as u32;
        let s0 = plane_state(src, init, top, (p + 1) as u32);
        let s1 = enc_pass(src, s0, 0, p);
        let s2 = enc_pass(src, s1, 1, p);
        let s3 = enc_pass(src, s2, 2, p);
        let c0 = sig_total(s0.flags, s0.flags.len());
        let c1 = sig_total(s1.flags, s1.flags.len());
        let c2 = sig_total(s2.flags, s2.flags.len());
        let c3 = sig_total(s3.flags, s3.flags.len());
        if (j - 1) % 3 == 0 {
            (c0, if c1 >= c0 { (c1 - c0) as nat } else { 0 })
        } else if (j - 1) % 3 == 1 {
            (c0, 0)
        } else {
            (c2, if c3 >= c2 { (c3 - c2) as nat } else { 0 })
        }
    }
}

/// The significance counts of each pass of a block's coefficients.
pub open spec fn t1_significance(coefficients: Seq<i32>, width: nat, height: nat, band: BandOrientation) -> Seq<(nat, nat)> {
    let planes = bit_length(max_abs(coefficients, coefficients.len()));
    let src = t1_source(coefficients, width, height, band);
    let init = T1EncState { mq: enc_initial(initial_contexts()), flags: Seq::new(width * height, |i: int| 0u8) };
    Seq::new(pass_count(planes), |j: int| pass_significance(src, init, (planes - 1) as u32, j as nat))
}

/// Where pass `k` of `count` ends in a segment of `total` bytes, from the coder's byte counts
/// after each pass: the last pass ends the segment; any other ends at its count, kept within
/// the segment and no earlier than the pass before.
pub open spec fn pass_end(snaps: Seq<int>, total: nat, count: nat, k: nat) -> nat
    decreases k,
{
    let prev: nat = if k == 0 { 0 } else { pass_end(snaps, total, count, (k - 1) as nat) };
    if k + 1 == count {
        total
    } else {
        let snap: nat = if snaps[k as int] < total { snaps[k as int] as nat } else { total };
        if snap < prev { prev } else { snap }
    }
}

/// The coder's byte counts after each pass of a block's coefficients.
pub open spec fn t1_snapshots(coefficients: Seq<i32>, width: nat, height: nat, band: BandOrientation) -> Seq<int> {
    let planes = bit_length(max_abs(coefficients, coefficients.len()));
    let src = t1_source(coefficients, width, height, band);
    let init = T1EncState { mq: enc_initial(initial_contexts()), flags: Seq::new(width * height, |i: int| 0u8) };
    Seq::new(pass_count(planes), |j: int| pass_snapshot(src, init, (planes - 1) as u32, j as nat))
}

struct BlockEncoder {
    coder: MqCoder,
    flags: FlagGrid,
    mags: Vec<u32>,
    signs: Vec<u8>,
    width: usize,
    height: usize,
    band: BandOrientation,
}

impl BlockEncoder {
    spec fn wf(&self) -> bool {
        &&& self.coder.wf()
        &&& self.flags.wf()
        &&& self.flags.w() == self.width
        &&& self.flags.h() == self.height
        &&& self.mags@.len() == self.width * self.height
        &&& self.signs@.len() == self.width * self.height
    }

    spec fn same_block(&self, other: &Self) -> bool {
        &&& self.width == other.width
        &&& self.height == other.height
        &&& self.band == other.band
        &&& self.mags@ == other.mags@
        &&& self.signs@ == other.signs@
    }

    spec fn estate(&self) -> T1EncState {
        T1EncState { mq: self.coder@, flags: self.flags.cells() }
    }

    spec fn esrc(&self) -> T1Source {
        T1Source { w: self.width as nat, h: self.height as nat, band: self.band, mags: self.mags@, signs: self.signs@ }
    }

    fn index(&self, x: usize, y: usize) -> (i: usize)
        requires
            self.wf(),
            x < self.width,
            y < self.height,
        ensures
            i == y * self.width + x,
            i < self.mags@.len(),
    {
        let _len = self.mags.len();
        proof {
            assert(y * self.width + x < self.width * self.height) by (nonlinear_arith)
                requires x < self.width, y < self.height;
        }
        y * self.width + x
    }

    fn bit(&self, bitplane: u32, x: usize, y: usize) -> (b: u8)
        requires
            self.wf(),
            bitplane < 32,
            x < self.width,
            y < self.height,
        ensures
            b <= 1,
            b == enc_bit(self.esrc(), bitplane, x as int, y as int),
    {
        let idx = self.index(x, y);
        let m = self.mags[idx];
        let b = ((m >> bitplane) & 1) as u8;
        assert((m >> bitplane) & 1 <= 1) by (bit_vector);
        b
    }

    fn emit(&mut self, ctx: u8, bit: u8)
        requires
            old(self).wf(),
            ctx < 19,
        ensures
            final(self).wf(),
            final(self).same_block(old(self)),
            final(self).flags == old(self).flags,
            final(self).coder@ == enc_decision(old(self).coder@, ctx as int, bit),
    {
        self.coder.encode_with_ctx(ctx, bit);
    }

    fn new_significant(&mut self, x: usize, y: usize)
        requires
            old(self).wf(),
            x < old(self).width,
            y < old(self).height,
        ensures
            final(self).wf(),
            final(self).same_block(old(self)),
            final(self).estate() == enc_new_sig(old(self).esrc(), old(self).estate(), x as int, y as int),
    {
        let idx = self.index(x, y);
        let sign_bit = if self.signs[idx] != 0 { 1u8 } else { 0u8 };
        let pattern = self.flags.cardinal_sign_context(x, y);
        let ctx = sign_context(pattern);
        let prediction = sign_prediction_bit(pattern);
        self.emit(ctx, sign_bit ^ prediction);
        self.flags.mark_significant(x, y, sign_bit);
        assert(self.estate() =~= enc_new_sig(old(self).esrc(), old(self).estate(), x as int, y as int));
    }

    fn sigpass_step(&mut self, bitplane: u32, x: usize, y: usize)
        requires
            old(self).wf(),
            bitplane < 32,
            x < old(self).width,
            y < old(self).height,
        ensures
            final(self).wf(),
            final(self).same_block(old(self)),
            final(self).estate() == enc_sig_step(old(self).esrc(), old(self).estate(), bitplane, x as int, y as int),
    {
        proof {
            assert(y * self.width + x < self.width * self.height) by (nonlinear_arith)
                requires x < self.width, y < self.height;
        }
        if self.flags.is_significant(x, y) {
            return;
        }
        let mask = self.flags.neighbour_mask(x, y);
        if mask == 0 {
            return;
        }
        let ctx = zero_coding_context(self.band, mask);
        let plane_bit = self.bit(bitplane, x, y);
        self.emit(ctx, plane_bit);
        self.flags.mark_visited(x, y);
        if plane_bit == 1 {
            self.new_significant(x, y);
        }
    }

    fn refpass_step(&mut self, bitplane: u32, x: usize, y: usize)
        requires
            old(self).wf(),
            bitplane < 32,
            x < old(self).width,
            y < old(self).height,
        ensures
            final(self).wf(),
            final(self).same_block(old(self)),
            final(self).estate() == enc_ref_step(old(self).esrc(), old(self).estate(), bitplane, x as int, y as int),
    {
        proof {
            assert(y * self.width + x < self.width * self.height) by (nonlinear_arith)
                requires x < self.width, y < self.height;
        }
        if !self.flags.is_significant(x, y) || self.flags.is_visited(x, y) {
            return;
        }
        let has_sig_neighbor = self.flags.neighbour_mask(x, y) != 0;
        let ctx = magnitude_context(has_sig_neighbor, self.flags.has_refinement_history(x, y));
        let plane_bit = self.bit(bitplane, x, y);
        self.emit(ctx, plane_bit);
        self.flags.mark_refined(x, y);
    }

    fn cleanup_sample(&mut self, bitplane: u32, x: usize, y: usize)
        requires
            old(self).wf(),
            bitplane < 32,
            x < old(self).width,
            y < old(self).height,
        ensures
            final(self).wf(),
            final(self).same_block(old(self)),
            final(self).estate() == enc_cleanup_sample(old(self).esrc(), old(self).estate(), bitplane, x as int, y as int),
    {
        proof {
            assert(y * self.width + x < self.width * self.height) by (nonlinear_arith)
                requires x < self.width, y < self.height;
        }
        if self.flags.is_significant(x, y) || self.flags.is_visited(x, y) {
            self.flags.clear_visited(x, y);
            return;
        }
        let mask = self.flags.neighbour_mask(x, y);
        let ctx = if mask != 0 { zero_coding_context(self.band, mask) } else { T1_CTXNO_ZC };
        let plane_bit = self.bit(bitplane, x, y);
        self.emit(ctx, plane_bit);
        self.flags.clear_visited(x, y);
        if plane_bit == 1 {
            self.new_significant(x, y);
        }
    }

    fn cleanup_stripe(&mut self, bitplane: u32, x: usize, k: usize)
        requires
            old(self).wf(),
            bitplane < 32,
            x < old(self).width,
            k + 4 <= old(self).height,
        ensures
            final(self).wf(),
            final(self).same_block(old(self)),
            final(self).estate() == enc_cleanup_stripe(old(self).esrc(), old(self).estate(), bitplane, x as int, k as int),
    {
        let ghost src = self.esrc();
        let ghost target = enc_cleanup_stripe(src, self.estate(), bitplane, x as int, k as int);
        if self.flags.stripe_is_clean(x, k, 4) {
            let mut runlen: usize = 4;
            let mut ci: usize = 0;
            while ci < 4
                invariant_except_break
                    runlen == 4,
                    enc_run(src, bitplane, x as int, k as int, ci as int) == enc_run(src, bitplane, x as int, k as int, 0),
                invariant
                    self.wf(),
                    src == self.esrc(),
                    bitplane < 32,
                    x < self.width,
                    k + 4 <= self.height,
                    ci <= 4,
                ensures
                    runlen as int == enc_run(src, bitplane, x as int, k as int, 0),
                    runlen <= 4,
                decreases 4 - ci,
            {
                if self.bit(bitplane, x, k + ci) == 1 {
                    runlen = ci;
                    break;
                }
                ci = ci + 1;
            }
            if runlen == 4 {
                self.emit(T1_CTXNO_AGG, 0);
                let mut ci: usize = 0;
                while ci < 4
                    invariant
                        self.wf(),
                        self.same_block(old(self)),
                        src == self.esrc(),
                        x < self.width,
                        k + 4 <= self.height,
                        ci <= 4,
                        enc_clear_column(src, self.estate(), x as int, k as int, ci as int, 4) == target,
                    decreases 4 - ci,
                {
                    proof {
                        assert((k + ci) * self.width + x < self.width * self.height) by (nonlinear_arith)
                            requires x < self.width, k + ci < self.height;
                    }
                    let ghost before = self.estate();
                    self.flags.clear_visited(x, k + ci);
                    proof {
                        let i = (k + ci) * src.w + x;
                        assert(self.estate() =~= T1EncState { flags: before.flags.update(i, without_bit(before.flags[i], FLAG_VISITED)), ..before });
                    }
                    ci = ci + 1;
                }
                return;
            }
            let hi = ((runlen >> 1) & 1) as u8;
            let lo = (runlen & 1) as u8;
            assert(((runlen >> 1) & 1) == runlen / 2 && (runlen & 1) == runlen % 2) by (bit_vector)
                requires runlen < 4;
            self.emit(T1_CTXNO_AGG, 1);
            self.emit(T1_CTXNO_UNI, hi);
            self.emit(T1_CTXNO_UNI, lo);
            let y = k + runlen;
            self.new_significant(x, y);
            proof {
                assert(y * self.width + x < self.width * self.height) by (nonlinear_arith)
                    requires x < self.width, y < self.height;
            }
            let ghost before = self.estate();
            self.flags.clear_visited(x, y);
            proof {
                let i = y * src.w + x;
                assert(self.estate() =~= T1EncState { flags: before.flags.update(i, without_bit(before.flags[i], FLAG_VISITED)), ..before });
            }
            let mut ci = runlen + 1;
            while ci < 4
                invariant
                    self.wf(),
                    self.same_block(old(self)),
                    src == self.esrc(),
                    bitplane < 32,
                    x < self.width,
                    k + 4 <= self.height,
                    ci <= 4,
                    enc_column(src, self.estate(), 2, bitplane, x as int, k as int, ci as int, 4) == target,
                decreases 4 - ci,
            {
                self.cleanup_sample(bitplane, x, k + ci);
                ci = ci + 1;
            }
        } else {
            let mut ci: usize = 0;
            while ci < 4
                invariant
                    self.wf(),
                    self.same_block(old(self)),
                    src == self.esrc(),
                    bitplane < 32,
                    x < self.width,
                    k + 4 <= self.height,
                    ci <= 4,
                    enc_column(src, self.estate(), 2, bitplane, x as int, k as int, ci as int, 4) == target,
                decreases 4 - ci,
            {
                self.cleanup_sample(bitplane, x, k + ci);
                ci = ci + 1;
            }
        }
    }

    /// Runs one pass (0: significance propagation, 1: magnitude refinement, 2: cleanup) over the
    /// block in stripe order: stripes of four rows, column by column.
    fn pass(&mut self, kind: u8, bitplane: u32)
        requires
            old(self).wf(),
            bitplane < 32,
            kind <= 2,
        ensures
            final(self).wf(),
            final(self).same_block(old(self)),
            final(self).estate() == enc_pass(old(self).esrc(), old(self).estate(), kind, bitplane),
    {
        let ghost b = self.esrc();
        let ghost st0 = self.estate();
        let height = self.height;
        let width = self.width;
        let full = (height / 4) * 4;
        let ghost stripes_target = enc_stripes(b, st0, kind, bitplane, 0, (height / 4) as nat);
        let mut k: usize = 0;
        while k < full
            invariant
                self.wf(),
                self.same_block(old(self)),
                b == self.esrc(),
                height == self.height,
                width == self.width,
                bitplane < 32,
                full == (height / 4) * 4,
                k <= full,
                k % 4 == 0,
                kind <= 2,
                enc_stripes(b, self.estate(), kind, bitplane, k as int, ((full - k) / 4) as nat) == stripes_target,
            decreases full - k,
        {
            let ghost row_target = enc_row(b, self.estate(), kind, bitplane, k as int, 0);
            let mut x: usize = 0;
            while x < width
                invariant
                    self.wf(),
                    self.same_block(old(self)),
                    b == self.esrc(),
                    height == self.height,
                    width == self.width,
                    bitplane < 32,
                    full == (height / 4) * 4,
                    k + 4 <= full,
                    x <= width,
                    kind <= 2,
                    enc_row(b, self.estate(), kind, bitplane, k as int, x as int) == row_target,
                decreases width - x,
            {
                if kind == 2 {
                    self.cleanup_stripe(bitplane, x, k);
                } else {
                    let ghost col_target = enc_column(b, self.estate(), kind, bitplane, x as int, k as int, 0, 4);
                    let mut ci: usize = 0;
                    while ci < 4
                        invariant
                            self.wf(),
                            self.same_block(old(self)),
                            b == self.esrc(),
                            height == self.height,
                            width == self.width,
                            bitplane < 32,
                            k + 4 <= full,
                            full <= height,
                            x < width,
                            ci <= 4,
                            kind < 2,
                            enc_column(b, self.estate(), kind, bitplane, x as int, k as int, ci as int, 4) == col_target,
                        decreases 4 - ci,
                    {
                        if kind == 0 {
                            self.sigpass_step(bitplane, x, k + ci);
                        } else {
                            self.refpass_step(bitplane, x, k + ci);
                        }
                        ci = ci + 1;
                    }
                }
                x = x + 1;
            }
            k = k + 4;
        }
        let rem = height - full;
        if rem > 0 {
            let ghost rem_target = enc_rem_row(b, self.estate(), kind, bitplane, full as int, rem as int, 0);
            let mut x: usize = 0;
            while x < width
                invariant
                    self.wf(),
                    self.same_block(old(self)),
                    b == self.esrc(),
                    height == self.height,
                    width == self.width,
                    bitplane < 32,
                    full + rem == height,
                    x <= width,
                    kind <= 2,
                    enc_rem_row(b, self.estate(), kind, bitplane, full as int, rem as int, x as int) == rem_target,
                decreases width - x,
            {
                let ghost col_target = enc_column(b, self.estate(), kind, bitplane, x as int, full as int, 0, rem as int);
                let mut ci: usize = 0;
                while ci < rem
                    invariant
                        self.wf(),
                        self.same_block(old(self)),
                        b == self.esrc(),
                        height == self.height,
                        width == self.width,
                        bitplane < 32,
                        full + rem == height,
                        x < width,
                        ci <= rem,
                        kind <= 2,
                        enc_column(b, self.estate(), kind, bitplane, x as int, full as int, ci as int, rem as int) == col_target,
                    decreases rem - ci,
                {
                    if kind == 0 {
                        self.sigpass_step(bitplane, x, full + ci);
                    } else if kind == 1 {
                        self.refpass_step(bitplane, x, full + ci);
                    } else {
                        self.cleanup_sample(bitplane, x, full + ci);
                    }
                    ci = ci + 1;
                }
                x = x + 1;
            }
        }
    }

    fn clear_visited_all(&mut self)
        requires
            old(self).wf(),
        ensures
            final(self).wf(),
            final(self).same_block(old(self)),
            final(self).estate() == enc_clear_rows(old(self).esrc(), old(self).estate(), 0),
    {
        let ghost b = self.esrc();
        let ghost target = enc_clear_rows(b, self.estate(), 0);
        let height = self.height;
        let width = self.width;
        let mut y: usize = 0;
        while y < height
            invariant
                self.wf(),
                self.same_block(old(self)),
                b == self.esrc(),
                height == self.height,
                width == self.width,
                y <= height,
                enc_clear_rows(b, self.estate(), y as int) == target,
            decreases height - y,
        {
            let ghost row_target = enc_clear_row(b, self.estate(), y as int, 0);
            let mut x: usize = 0;
            while x < width
                invariant
                    self.wf(),
                    self.same_block(old(self)),
                    b == self.esrc(),
                    height == self.height,
                    width == self.width,
                    y < height,
                    x <= width,
                    enc_clear_row(b, self.estate(), y as int, x as int) == row_target,
                decreases width - x,
            {
                proof {
                    assert(y * self.width + x < self.width * self.height) by (nonlinear_arith)
                        requires x < self.width, y < self.height;
                }
                let ghost before = self.estate();
                self.flags.clear_visited(x, y);
                proof {
                    let i = y * b.w + x;
                    assert(self.estate() =~= T1EncState { flags: before.flags.update(i, without_bit(before.flags[i], FLAG_VISITED)), ..before });
                }
                x = x + 1;
            }
            y = y + 1;
        }
    }

    fn snapshot(&self) -> (n: usize)
        requires
            self.wf(),
        ensures
            n + 1 == self.coder@.out.len(),
    {
        self.coder.numbytes()
    }
}

/// The magnitude of a coefficient.
fn magnitude(v: i32) -> (m: u32)
    ensures
        m as nat == abs_i32(v),
{
    if v >= 0 { v as u32 } else if v == i32::MIN { 0x8000_0000 } else { (-v) as u32 }
}

/// The number of bits in the binary form of `m`.
fn bits_of(m: u32) -> (b: u8)
    ensures
        b as nat == bit_length(m as nat),
        b <= 32,
{
    let mut n: u32 = m;
    let mut b: u8 = 0;
    proof { lemma_bit_length_u32(m as nat); }
    while n > 0
        invariant
            b as nat + bit_length(n as nat) == bit_length(m as nat),
            bit_length(m as nat) <= 32,
        decreases n,
    {
        n = n / 2;
        b = b + 1;
    }
    b
}

proof fn lemma_bit_length_u32(m: nat)
    requires
        m < 0x1_0000_0000,
    ensures
        bit_length(m) <= 32,
{
    assert(crate::decode_markers::pow2_int(32) == 0x1_0000_0000) by {
        reveal_with_fuel(crate::decode_markers::pow2_int, 33);
    }
    lemma_bit_length_below(m, 32);
}

proof fn lemma_bit_length_below(m: nat, k: nat)
    requires
        m < crate::decode_markers::pow2_int(k),
    ensures
        bit_length(m) <= k,
    decreases k,
{
    if m > 0 {
        if k == 0 {
            assert(crate::decode_markers::pow2_int(0) == 1);
        } else {
            assert(crate::decode_markers::pow2_int(k) == 2 * crate::decode_markers::pow2_int((k - 1) as nat));
            lemma_bit_length_below(m / 2, (k - 1) as nat);
        }
    }
}

/// A copy of `data`.
fn copy_bytes(data: &Vec<u8>) -> (r: Vec<u8>)
    ensures
        r@ == data@,
{
    let mut r: Vec<u8> = Vec::new();
    let mut i: usize = 0;
    while i < data.len()
        invariant
            i <= data@.len(),
            r@ == data@.subrange(0, i as int),
        decreases data@.len() - i,
    {
        r.push(data[i]);
        i = i + 1;
    }
    assert(data@.subrange(0, data@.len() as int) =~= data@);
    r
}

/// The byte counts as integers.
pub open spec fn snaps_int(s: Seq<usize>) -> Seq<int> {
    Seq::new(s.len(), |j: int| s[j] as int)
}

/// The passes of a block whose top bit-plane is `top`, from the coder's byte count after each
/// pass and the segment's length: each pass's kind, bit-plane, index and extent.
fn record_passes(snaps: &Vec<usize>, befores: &Vec<usize>, newlys: &Vec<usize>, data: &Vec<u8>, top: u32)
    -> (passes: Vec<EncodedPass>)
    requires
        top < 32,
        snaps@.len() == 3 * top + 1,
        befores@.len() == snaps@.len(),
        newlys@.len() == snaps@.len(),
    ensures
        passes@.len() == snaps@.len(),
        forall|j: int| 0 <= j < passes@.len() ==> {
            let q = #[trigger] passes@[j];
            &&& q.coding_mode == PassCodingMode::Mq && q.termination == PassTermination::TermAll && !q.segmark
            &&& q.significant_before == befores@[j] && q.newly_significant == newlys@[j]
            &&& q.bytes@ == (if j == passes@.len() - 1 { data@ } else { Seq::<u8>::empty() })
        },
        passes_form_segment_len(passes@, data@.len()),
        forall|j: int| 0 <= j < passes@.len() ==> #[trigger] pass_laid_out(passes@, top as nat, j),
        forall|j: int| 0 <= j < passes@.len() ==> (#[trigger] passes@[j]).cumulative_length
            == pass_end(snaps_int(snaps@), data@.len(), passes@.len(), j as nat),
{
    let total = data.len();
    let planes: u32 = top + 1;
    let count = snaps.len();
    let mut passes: Vec<EncodedPass> = Vec::new();
    let mut prev: usize = 0;
    let mut k: usize = 0;
    while k < count
        invariant
            count == snaps@.len(),
            count >= 1,
            k <= count,
            total == data@.len(),
            passes@.len() == k,
            prev <= total,
            k < count ==> lengths_sum(passes@, k as nat) == prev,
            forall|j: int| 0 <= j < k ==> (#[trigger] passes@[j]).terminated == (j == count - 1),
            k == count ==> lengths_sum(passes@, k as nat) == total,
            count == 3 * planes - 2,
            1 <= planes <= 32,
            top == planes - 1,
            forall|j: int| 0 <= j < k ==> #[trigger] pass_laid_out(passes@, top as nat, j),
            befores@.len() == count,
            newlys@.len() == count,
            forall|j: int| 0 <= j < k ==> {
                let q = #[trigger] passes@[j];
                &&& q.coding_mode == PassCodingMode::Mq && q.termination == PassTermination::TermAll && !q.segmark
                &&& q.significant_before == befores@[j] && q.newly_significant == newlys@[j]
                &&& q.bytes@ == (if j == count - 1 { data@ } else { Seq::<u8>::empty() })
            },
            forall|j: int| 0 <= j < k ==> (#[trigger] passes@[j]).cumulative_length
                == pass_end(snaps_int(snaps@), total as nat, count as nat, j as nat),
            k > 0 && k < count ==> prev == pass_end(snaps_int(snaps@), total as nat, count as nat, (k - 1) as nat),
            k == 0 ==> prev == 0,
        decreases count - k,
    {
        let snap = if snaps[k] < total { snaps[k] } else { total };
        let snap = if snap < prev { prev } else { snap };
        let last = k + 1 == count;
        let length = if last { total - prev } else { snap - prev };
        let kind = if k == 0 || (k - 1) % 3 == 2 { PassKind::Cleanup }
            else if (k - 1) % 3 == 0 { PassKind::SignificancePropagation }
            else { PassKind::MagnitudeRefinement };
        let bitplane: u8 = if k == 0 { top as u8 } else { (top - 1 - ((k - 1) / 3) as u32) as u8 };
        let cumulative = if last { total } else { snap };
        let ghost before = passes@;
        let bytes = if last { copy_bytes(data) } else { Vec::new() };
        passes.push(EncodedPass {
            kind, bitplane, pass_index: k as u16,
            coding_mode: PassCodingMode::Mq, termination: PassTermination::TermAll, segmark: false,
            significant_before: befores[k], newly_significant: newlys[k],
            length, cumulative_length: cumulative, terminated: last, bytes,
        });
        proof {
            assert(passes@.subrange(0, k as int) =~= before);
            lemma_lengths_sum_prefix(passes@, k as nat);
            assert(lengths_sum(before, k as nat) == lengths_sum(passes@, k as nat)) by {
                lemma_lengths_sum_same(before, passes@, k as nat);
            }
            assert forall|j: int| 0 <= j <= k implies #[trigger] pass_laid_out(passes@, top as nat, j) by {
                if j < k {
                    assert(pass_laid_out(before, top as nat, j));
                    assert(passes@[j] == before[j]);
                    lemma_lengths_sum_same(before, passes@, (j + 1) as nat);
                } else {
                    assert(passes@[j].kind == pass_kind_at(j as nat));
                    assert(passes@[j].bitplane == pass_bitplane_at(top as nat, j as nat));
                    assert(passes@[j].pass_index == j);
                    assert(passes@[j].cumulative_length == lengths_sum(passes@, (j + 1) as nat));
                }
            }
        }
        prev = if last { total } else { snap };
        k = k + 1;
    }
    proof {
        assert(lengths_sum(passes@, passes@.len()) == total);
    }
    passes
}

/// The lengths of the passes add up to `total`, and only the last pass ends the segment.
pub open spec fn passes_form_segment_len(passes: Seq<EncodedPass>, total: nat) -> bool {
    &&& lengths_sum(passes, passes.len()) == total
    &&& forall|i: int| 0 <= i < passes.len() ==> (#[trigger] passes[i]).terminated == (i == passes.len() - 1)
}

/// Codes one code-block of `width` by `height` coefficients, in a subband whose code-blocks
/// have `max_bitplanes` magnitude bit-planes, as one MQ segment: a cleanup pass on the top
/// magnitude bit-plane, then significance propagation, magnitude refinement and cleanup on each
/// lower one.
#[verifier::rlimit(100)]
pub fn encode_codeblock(
    coefficients: &[i32],
    width: usize,
    height: usize,
    band: BandOrientation,
    max_bitplanes: u8,
    rect: (u32, u32, u32, u32),
) -> (r: Result<EncodedCodeBlock>)
    requires
        coefficients@.len() == width * height,
    ensures
        r is Ok,
        r matches Ok(b) ==> b.magnitude_bitplanes == bit_length(max_abs(coefficients@, coefficients@.len()))
            && b.zero_bitplanes == (if b.magnitude_bitplanes <= max_bitplanes { max_bitplanes - b.magnitude_bitplanes } else { 0 })
            && (forall|j: int| 0 <= j < b.passes@.len() ==> #[trigger] pass_laid_out(b.passes@, (b.magnitude_bitplanes - 1) as nat, j))
            && b.passes@.len() == pass_count(b.magnitude_bitplanes as nat)
            && passes_form_segment(b.passes@, b.data@)
            && b.x0 == rect.0 && b.y0 == rect.1 && b.x1 == rect.2 && b.y1 == rect.3,
        r matches Ok(b) ==> b.data@ == t1_codeword(coefficients@, width as nat, height as nat, band),
        r matches Ok(b) ==> forall|j: int| 0 <= j < b.passes@.len() ==> (#[trigger] b.passes@[j]).cumulative_length
            == pass_end(t1_snapshots(coefficients@, width as nat, height as nat, band), b.data@.len(), b.passes@.len(), j as nat),
        r matches Ok(b) ==> forall|j: int| 0 <= j < b.passes@.len() ==> {
            let q = #[trigger] b.passes@[j];
            &&& q.coding_mode == PassCodingMode::Mq && q.termination == PassTermination::TermAll && !q.segmark
            &&& (q.significant_before as nat, q.newly_significant as nat)
                == t1_significance(coefficients@, width as nat, height as nat, band)[j]
            &&& q.bytes@ == (if j == b.passes@.len() - 1 { b.data@ } else { Seq::<u8>::empty() })
        },
        r matches Err(e) ==> e is EncodeFailed,
{
    let n = coefficients.len();
    let (mags, signs, max) = split_magnitudes(coefficients);
    let planes = bits_of(max);
    let zero_bitplanes = if planes <= max_bitplanes { max_bitplanes - planes } else { 0 };
    if planes == 0 {
        let b = EncodedCodeBlock {
            x0: rect.0, y0: rect.1, x1: rect.2, y1: rect.3,
            magnitude_bitplanes: 0,
            zero_bitplanes,
            passes: Vec::new(),
            data: Vec::new(),
        };
        assert(b.passes@.len() == 0);
        return Ok(b);
    }
    let mut st = BlockEncoder {
        coder: MqCoder::with_capacity(n / 2),
        flags: FlagGrid::new(width, height),
        mags,
        signs,
        width,
        height,
        band,
    };
    let ghost src = st.esrc();
    proof {
        assert(src.mags =~= t1_source(coefficients@, width as nat, height as nat, band).mags);
        assert(src.signs =~= t1_source(coefficients@, width as nat, height as nat, band).signs);
        assert(st.estate() =~= T1EncState { mq: enc_initial(initial_contexts()), flags: Seq::new(width as nat * height as nat, |i: int| 0u8) });
    }
    let mut snaps: Vec<usize> = Vec::new();
    let top = (planes - 1) as u32;
    let ghost init = st.estate();
    st.pass(2, top);
    snaps.push(st.snapshot());
    let mut befores: Vec<usize> = Vec::new();
    let mut newlys: Vec<usize> = Vec::new();
    befores.push(0);
    newlys.push(st.flags.significant_count());
    st.clear_visited_all();
    let mut bitplane = top;
    let ghost target = enc_planes(src, st.estate(), top);
    while bitplane > 0
        invariant
            st.wf(),
            st.width == width,
            st.height == height,
            src == st.esrc(),
            bitplane <= top,
            top < 32,
            snaps@.len() == 1 + 3 * (top - bitplane),
            enc_planes(src, st.estate(), bitplane) == target,
            st.estate() == plane_state(src, init, top, bitplane),
            forall|j: int| 0 <= j < snaps@.len() ==> #[trigger] snaps@[j] as int == pass_snapshot(src, init, top, j as nat),
            befores@.len() == snaps@.len(),
            newlys@.len() == snaps@.len(),
            forall|j: int| 0 <= j < snaps@.len() ==> (#[trigger] befores@[j] as nat, newlys@[j] as nat)
                == pass_significance(src, init, top, j as nat),
        decreases bitplane,
    {
        let ghost base = snaps@.len();
        let ghost s0 = st.estate();
        let c0 = st.flags.significant_count();
        bitplane = bitplane - 1;
        st.pass(0, bitplane);
        snaps.push(st.snapshot());
        let c1 = st.flags.significant_count();
        st.pass(1, bitplane);
        snaps.push(st.snapshot());
        let c2 = st.flags.significant_count();
        st.pass(2, bitplane);
        snaps.push(st.snapshot());
        let c3 = st.flags.significant_count();
        befores.push(c0);
        newlys.push(if c1 >= c0 { c1 - c0 } else { 0 });
        befores.push(c0);
        newlys.push(0);
        befores.push(c2);
        newlys.push(if c3 >= c2 { c3 - c2 } else { 0 });
        st.clear_visited_all();
        proof {
            assert(s0 == plane_state(src, init, top, (bitplane + 1) as u32));
            assert(st.estate() == plane_state(src, init, top, bitplane));
            assert((base - 1) / 3 == top - 1 - bitplane);
            assert((base + 1 - 1) / 3 == top - 1 - bitplane);
            assert((base + 2 - 1) / 3 == top - 1 - bitplane);
            assert(snaps@[base as int] as int == pass_snapshot(src, init, top, base as nat));
            assert(snaps@[base as int + 1] as int == pass_snapshot(src, init, top, (base + 1) as nat));
            assert(snaps@[base as int + 2] as int == pass_snapshot(src, init, top, (base + 2) as nat));
            assert((befores@[base as int] as nat, newlys@[base as int] as nat) == pass_significance(src, init, top, base as nat));
            assert((befores@[base as int + 1] as nat, newlys@[base as int + 1] as nat) == pass_significance(src, init, top, (base + 1) as nat));
            assert((befores@[base as int + 2] as nat, newlys@[base as int + 2] as nat) == pass_significance(src, init, top, (base + 2) as nat));
        }
    }
    let data = st.coder.flush_and_restart();
    proof {
        assert(planes as nat == bit_length(max_abs(coefficients@, coefficients@.len())));
        assert(src == t1_source(coefficients@, width as nat, height as nat, band));
    }
    let total = data.len();
    let passes = record_passes(&snaps, &befores, &newlys, &data, top);
    proof {
        let ts = t1_snapshots(coefficients@, width as nat, height as nat, band);
        assert(init == T1EncState { mq: enc_initial(initial_contexts()), flags: Seq::new(width as nat * height as nat, |i: int| 0u8) });
        assert forall|j: int| 0 <= j < snaps@.len() implies #[trigger] snaps_int(snaps@)[j] == ts[j] by {
            assert(snaps@[j] as int == pass_snapshot(src, init, top, j as nat));
        }
        assert(snaps_int(snaps@) =~= ts);
        let sg = t1_significance(coefficients@, width as nat, height as nat, band);
        assert forall|j: int| 0 <= j < snaps@.len() implies (#[trigger] befores@[j] as nat, newlys@[j] as nat) == sg[j] by {}
    }
    Ok(EncodedCodeBlock {
        x0: rect.0, y0: rect.1, x1: rect.2, y1: rect.3,
        magnitude_bitplanes: planes,
        zero_bitplanes,
        passes,
        data,
    })
}

proof fn lemma_lengths_sum_prefix(p: Seq<EncodedPass>, k: nat)
    requires
        k < p.len(),
    ensures
        lengths_sum(p, k + 1) == lengths_sum(p, k) + p[k as int].length,
{
}

proof fn lemma_lengths_sum_same(a: Seq<EncodedPass>, b: Seq<EncodedPass>, k: nat)
    requires
        k <= a.len(),
        k <= b.len(),
        forall|j: int| 0 <= j < k ==> a[j] == b[j],
    ensures
        lengths_sum(a, k) == lengths_sum(b, k),
    decreases k,
{
    if k > 0 {
        lemma_lengths_sum_same(a, b, (k - 1) as nat);
    }
}

/// The coder's state with its registers restarted for the next pass, its context states and
/// the flags kept (C.2.8, as every pass ends under per-pass termination).
pub open spec fn restarted(st: T1EncState) -> T1EncState {
    T1EncState { mq: enc_initial(st.mq.ctxs), flags: st.flags }
}

/// The codeword that terminating the coder in state `st` gives.
pub open spec fn terminated_bytes(st: T1EncState) -> Seq<u8> {
    enc_codeword(enc_flush(st.mq).out)
}

/// Under per-pass termination, the encoder's state at the start of bit-plane `b`'s passes
/// (below `top`), the visited marks cleared: each pass starts from restarted registers.
pub open spec fn termall_plane_state(src: T1Source, init: T1EncState, top: u32, b: u32) -> T1EncState
    decreases top - b,
{
    if b >= top {
        enc_clear_rows(src, restarted(enc_pass(src, init, 2, top)), 0)
    } else {
        let s0 = termall_plane_state(src, init, top, (b + 1) as u32);
        let s1 = enc_pass(src, s0, 0, b);
        let s2 = enc_pass(src, restarted(s1), 1, b);
        let s3 = enc_pass(src, restarted(s2), 2, b);
        enc_clear_rows(src, restarted(s3), 0)
    }
}

/// Under per-pass termination, the encoder's state at the end of pass `j`, before it is
/// terminated.
pub open spec fn termall_pass_state(src: T1Source, init: T1EncState, top: u32, j: nat) -> T1EncState {
    if j == 0 {
        enc_pass(src, init, 2, top)
    } else {
        let p = (top - 1 - (j - 1) / 3) as u32;
        let s0 = termall_plane_state(src, init, top, (p + 1) as u32);
        let s1 = enc_pass(src, s0, 0, p);
        let s2 = enc_pass(src, restarted(s1), 1, p);
        let s3 = enc_pass(src, restarted(s2), 2, p);
        if (j - 1) % 3 == 0 { s1 } else if (j - 1) % 3 == 1 { s2 } else { s3 }
    }
}

/// Under per-pass termination, the significant coefficients before pass `j` and those that
/// become significant in it; as under one termination, the refinement pass counts those
/// significant before its plane's significance propagation pass.
pub open spec fn termall_pass_significance(src: T1Source, init: T1EncState, top: u32, j: nat) -> (nat, nat) {
    if j == 0 {
        let a = enc_pass(src, init, 2, top).flags;
        (0, sig_total(a, a.len()))
    } else {
        let p = (top - 1 - (j - 1) / 3) as u32;
        let s0 = termall_plane_state(src, init, top, (p + 1) as u32);
        let s1 = enc_pass(src, s0, 0, p);
        let s2 = enc_pass(src, restarted(s1), 1, p);
        let s3 = enc_pass(src, restarted(s2), 2, p);
        let c0 = sig_total(s0.flags, s0.flags.len());
        let c1 = sig_total(s1.flags, s1.flags.len());
        let c2 = sig_total(s2.flags, s2.flags.len());
        let c3 = sig_total(s3.flags, s3.flags.len());
        if (j - 1) % 3 == 0 {
            (c0, if c1 >= c0 { (c1 - c0) as nat } else { 0 })
        } else if (j - 1) % 3 == 1 {
            (c0, 0)
        } else {
            (c2, if c3 >= c2 { (c3 - c2) as nat } else { 0 })
        }
    }
}

/// The codeword of each pass of a block's coefficients when every pass is terminated: the
/// registers restart after each pass, the context states carry over.
pub open spec fn t1_termall_codewords(coefficients: Seq<i32>, width: nat, height: nat, band: BandOrientation) -> Seq<Seq<u8>> {
    let planes = bit_length(max_abs(coefficients, coefficients.len()));
    let src = t1_source(coefficients, width, height, band);
    let init = T1EncState { mq: enc_initial(initial_contexts()), flags: Seq::new(width * height, |i: int| 0u8) };
    Seq::new(pass_count(planes), |j: int| terminated_bytes(termall_pass_state(src, init, (planes - 1) as u32, j as nat)))
}

/// The significance counts of each pass when every pass is terminated.
pub open spec fn t1_termall_significance(coefficients: Seq<i32>, width: nat, height: nat, band: BandOrientation) -> Seq<(nat, nat)> {
    let planes = bit_length(max_abs(coefficients, coefficients.len()));
    let src = t1_source(coefficients, width, height, band);
    let init = T1EncState { mq: enc_initial(initial_contexts()), flags: Seq::new(width * height, |i: int| 0u8) };
    Seq::new(pass_count(planes), |j: int| termall_pass_significance(src, init, (planes - 1) as u32, j as nat))
}

/// The first `n` codewords, one after another.
pub open spec fn joined(words: Seq<Seq<u8>>, n: nat) -> Seq<u8>
    decreases n,
{
    if n == 0 { Seq::empty() } else { joined(words, (n - 1) as nat) + words[n - 1] }
}

/// The magnitudes and signs of coefficients, and their largest magnitude.
fn split_magnitudes(coefficients: &[i32]) -> (r: (Vec<u32>, Vec<u8>, u32))
    ensures
        r.0@ == Seq::new(coefficients@.len(), |i: int| abs_i32(coefficients@[i]) as u32),
        r.1@ == Seq::new(coefficients@.len(), |i: int| if coefficients@[i] < 0 { 1u8 } else { 0u8 }),
        r.2 as nat == max_abs(coefficients@, coefficients@.len()),
{
    let n = coefficients.len();
    let mut mags: Vec<u32> = Vec::new();
    let mut signs: Vec<u8> = Vec::new();
    let mut max: u32 = 0;
    let mut i: usize = 0;
    while i < n
        invariant
            n == coefficients@.len(),
            i <= n,
            mags@.len() == i,
            signs@.len() == i,
            max as nat == max_abs(coefficients@, i as nat),
            forall|j: int| 0 <= j < i ==> #[trigger] mags@[j] == abs_i32(coefficients@[j]) as u32,
            forall|j: int| 0 <= j < i ==> #[trigger] signs@[j] == (if coefficients@[j] < 0 { 1u8 } else { 0u8 }),
        decreases n - i,
    {
        let v = coefficients[i];
        let m = magnitude(v);
        mags.push(m);
        signs.push(if v < 0 { 1 } else { 0 });
        if m > max {
            max = m;
        }
        i = i + 1;
    }
    assert(mags@ =~= Seq::new(coefficients@.len(), |i: int| abs_i32(coefficients@[i]) as u32));
    assert(signs@ =~= Seq::new(coefficients@.len(), |i: int| if coefficients@[i] < 0 { 1u8 } else { 0u8 }));
    (mags, signs, max)
}

/// Appends a terminated pass and its codeword: its length is the codeword's, its cumulative
/// length the segment's so far.
fn push_terminated_pass(passes: &mut Vec<EncodedPass>, data: &mut Vec<u8>, kind: PassKind, bitplane: u8,
    before: usize, newly: usize, bytes: Vec<u8>)
    requires
        old(passes)@.len() < 0x10000,
        old(data)@.len() == lengths_sum(old(passes)@, old(passes)@.len()),
    ensures
        final(data)@ == old(data)@ + bytes@,
        final(passes)@.len() == old(passes)@.len() + 1,
        final(passes)@.subrange(0, old(passes)@.len() as int) == old(passes)@,
        ({
            let q = final(passes)@.last();
            &&& q.kind == kind && q.bitplane == bitplane && q.pass_index == old(passes)@.len()
            &&& q.coding_mode == PassCodingMode::Mq && q.termination == PassTermination::TermAll && !q.segmark
            &&& q.significant_before == before && q.newly_significant == newly
            &&& q.length == bytes@.len() && q.cumulative_length == final(data)@.len() && q.terminated
            &&& q.bytes@ == bytes@
        }),
        final(data)@.len() == lengths_sum(final(passes)@, final(passes)@.len()),
{
    let index = passes.len() as u16;
    let mut i: usize = 0;
    let ghost start = data@;
    while i < bytes.len()
        invariant
            i <= bytes@.len(),
            data@ == start + bytes@.subrange(0, i as int),
        decreases bytes@.len() - i,
    {
        data.push(bytes[i]);
        i = i + 1;
        assert(data@ =~= start + bytes@.subrange(0, i as int));
    }
    assert(bytes@.subrange(0, bytes@.len() as int) =~= bytes@);
    let length = bytes.len();
    let cumulative = data.len();
    let ghost before_push = passes@;
    passes.push(EncodedPass {
        kind, bitplane, pass_index: index,
        coding_mode: PassCodingMode::Mq, termination: PassTermination::TermAll, segmark: false,
        significant_before: before, newly_significant: newly,
        length, cumulative_length: cumulative, terminated: true, bytes,
    });
    proof {
        assert(passes@.subrange(0, before_push.len() as int) =~= before_push);
        lemma_lengths_sum_prefix(passes@, before_push.len());
        lemma_lengths_sum_same(before_push, passes@, before_push.len());
    }
}

/// Codes one code-block like [`encode_codeblock`], but terminates every pass: the coder is
/// flushed after each pass and its registers restarted, its context states kept, so that each
/// pass is a segment of its own whose bytes the pass carries. The block's data is the passes'
/// codewords one after another.
#[verifier::rlimit(100)]
pub fn encode_codeblock_termall(
    coefficients: &[i32],
    width: usize,
    height: usize,
    band: BandOrientation,
    max_bitplanes: u8,
    rect: (u32, u32, u32, u32),
) -> (b: EncodedCodeBlock)
    requires
        coefficients@.len() == width * height,
    ensures
        b.magnitude_bitplanes == bit_length(max_abs(coefficients@, coefficients@.len())),
        b.zero_bitplanes == (if b.magnitude_bitplanes <= max_bitplanes { max_bitplanes - b.magnitude_bitplanes } else { 0 }),
        b.x0 == rect.0 && b.y0 == rect.1 && b.x1 == rect.2 && b.y1 == rect.3,
        b.passes@.len() == pass_count(b.magnitude_bitplanes as nat),
        forall|j: int| 0 <= j < b.passes@.len() ==> #[trigger] pass_laid_out(b.passes@, (b.magnitude_bitplanes - 1) as nat, j),
        forall|j: int| 0 <= j < b.passes@.len() ==> {
            let q = #[trigger] b.passes@[j];
            &&& q.coding_mode == PassCodingMode::Mq && q.termination == PassTermination::TermAll && !q.segmark
            &&& q.terminated
            &&& q.bytes@ == t1_termall_codewords(coefficients@, width as nat, height as nat, band)[j]
            &&& q.length == q.bytes@.len()
            &&& (q.significant_before as nat, q.newly_significant as nat)
                == t1_termall_significance(coefficients@, width as nat, height as nat, band)[j]
        },
        b.data@ == joined(t1_termall_codewords(coefficients@, width as nat, height as nat, band), b.passes@.len()),
{
    let (mags, signs, max) = split_magnitudes(coefficients);
    let planes = bits_of(max);
    let zero_bitplanes = if planes <= max_bitplanes { max_bitplanes - planes } else { 0 };
    let mut passes: Vec<EncodedPass> = Vec::new();
    let mut data: Vec<u8> = Vec::new();
    if planes == 0 {
        assert(data@ =~= joined(t1_termall_codewords(coefficients@, width as nat, height as nat, band), 0));
        return EncodedCodeBlock {
            x0: rect.0, y0: rect.1, x1: rect.2, y1: rect.3,
            magnitude_bitplanes: 0, zero_bitplanes, passes, data,
        };
    }
    let n = coefficients.len();
    let mut st = BlockEncoder {
        coder: MqCoder::with_capacity(n / 2),
        flags: FlagGrid::new(width, height),
        mags,
        signs,
        width,
        height,
        band,
    };
    let ghost src = st.esrc();
    let ghost words = t1_termall_codewords(coefficients@, width as nat, height as nat, band);
    let ghost sigs = t1_termall_significance(coefficients@, width as nat, height as nat, band);
    let top = (planes - 1) as u32;
    let ghost init = st.estate();
    proof {
        assert(src.mags =~= t1_source(coefficients@, width as nat, height as nat, band).mags);
        assert(src.signs =~= t1_source(coefficients@, width as nat, height as nat, band).signs);
        assert(src == t1_source(coefficients@, width as nat, height as nat, band));
        assert(init =~= T1EncState { mq: enc_initial(initial_contexts()), flags: Seq::new(width as nat * height as nat, |i: int| 0u8) });
        assert(planes as nat == bit_length(max_abs(coefficients@, coefficients@.len())));
    }
    st.pass(2, top);
    let newly = st.flags.significant_count();
    let ghost s_top = st.estate();
    let bytes = st.coder.flush_and_restart();
    proof {
        assert(bytes@ == terminated_bytes(termall_pass_state(src, init, top, 0)));
        assert(words[0] == bytes@);
        assert(sigs[0] == (0nat, newly as nat));
    }
    proof {
        assert(data@ =~= joined(words, 0));
    }
    self::push_next(&mut passes, &mut data, PassKind::Cleanup, top as u8, 0, newly, bytes, top, Ghost(words), Ghost(sigs));
    st.clear_visited_all();
    proof {
        assert(st.estate() =~= termall_plane_state(src, init, top, top));
    }
    let mut bitplane = top;
    while bitplane > 0
        invariant
            st.wf(),
            st.width == width,
            st.height == height,
            src == st.esrc(),
            bitplane <= top,
            top < 32,
            top + 1 == planes,
            planes as nat == bit_length(max_abs(coefficients@, coefficients@.len())),
            src == t1_source(coefficients@, width as nat, height as nat, band),
            init == (T1EncState { mq: enc_initial(initial_contexts()), flags: Seq::new(width as nat * height as nat, |i: int| 0u8) }),
            words == t1_termall_codewords(coefficients@, width as nat, height as nat, band),
            sigs == t1_termall_significance(coefficients@, width as nat, height as nat, band),
            passes@.len() == 1 + 3 * (top - bitplane),
            st.estate() == termall_plane_state(src, init, top, bitplane),
            data@ == joined(words, passes@.len() as nat),
            data@.len() == lengths_sum(passes@, passes@.len()),
            forall|j: int| 0 <= j < passes@.len() ==> #[trigger] pass_laid_out(passes@, top as nat, j),
            forall|j: int| 0 <= j < passes@.len() ==> {
                let q = #[trigger] passes@[j];
                &&& q.coding_mode == PassCodingMode::Mq && q.termination == PassTermination::TermAll && !q.segmark
                &&& q.terminated
                &&& q.bytes@ == words[j]
                &&& q.length == q.bytes@.len()
                &&& (q.significant_before as nat, q.newly_significant as nat) == sigs[j]
            },
        decreases bitplane,
    {
        let ghost base = passes@.len();
        let ghost s0 = st.estate();
        let c0 = st.flags.significant_count();
        bitplane = bitplane - 1;
        proof {
            assert((base - 1) / 3 == top - 1 - bitplane);
            assert((base + 1 - 1) / 3 == top - 1 - bitplane);
            assert((base + 2 - 1) / 3 == top - 1 - bitplane);
            assert(s0 == termall_plane_state(src, init, top, (bitplane + 1) as u32));
        }
        st.pass(0, bitplane);
        let c1 = st.flags.significant_count();
        let b1 = st.coder.flush_and_restart();
        proof {
            assert(b1@ == words[base as int]);
            assert(sigs[base as int] == (c0 as nat, (if c1 >= c0 { c1 - c0 } else { 0 }) as nat));
        }
        self::push_next(&mut passes, &mut data, PassKind::SignificancePropagation, bitplane as u8, c0,
            if c1 >= c0 { c1 - c0 } else { 0 }, b1, top, Ghost(words), Ghost(sigs));
        st.pass(1, bitplane);
        let b2 = st.coder.flush_and_restart();
        let c2 = st.flags.significant_count();
        proof {
            assert(b2@ == words[base as int + 1]);
            assert(sigs[base as int + 1] == (c0 as nat, 0nat));
        }
        self::push_next(&mut passes, &mut data, PassKind::MagnitudeRefinement, bitplane as u8, c0, 0, b2, top,
            Ghost(words), Ghost(sigs));
        st.pass(2, bitplane);
        let c3 = st.flags.significant_count();
        let b3 = st.coder.flush_and_restart();
        proof {
            assert(b3@ == words[base as int + 2]);
            assert(sigs[base as int + 2] == (c2 as nat, (if c3 >= c2 { c3 - c2 } else { 0 }) as nat));
        }
        self::push_next(&mut passes, &mut data, PassKind::Cleanup, bitplane as u8, c2,
            if c3 >= c2 { c3 - c2 } else { 0 }, b3, top, Ghost(words), Ghost(sigs));
        st.clear_visited_all();
        proof {
            assert(st.estate() == termall_plane_state(src, init, top, bitplane));
        }
    }
    EncodedCodeBlock {
        x0: rect.0, y0: rect.1, x1: rect.2, y1: rect.3,
        magnitude_bitplanes: planes,
        zero_bitplanes,
        passes,
        data,
    }
}

/// Appends pass `passes.len()` of a block with top bit-plane `top`, terminated, with its
/// codeword and significance counts, keeping the passes laid out and the data their codewords
/// one after another.
fn push_next(passes: &mut Vec<EncodedPass>, data: &mut Vec<u8>, kind: PassKind, bitplane: u8, before: usize,
    newly: usize, bytes: Vec<u8>, top: u32, Ghost(words): Ghost<Seq<Seq<u8>>>, Ghost(sigs): Ghost<Seq<(nat, nat)>>)
    requires
        top < 32,
        old(passes)@.len() < 3 * top + 1,
        old(data)@ == joined(words, old(passes)@.len() as nat),
        old(data)@.len() == lengths_sum(old(passes)@, old(passes)@.len()),
        kind == pass_kind_at(old(passes)@.len() as nat),
        bitplane == pass_bitplane_at(top as nat, old(passes)@.len() as nat),
        bytes@ == words[old(passes)@.len() as int],
        (before as nat, newly as nat) == sigs[old(passes)@.len() as int],
        forall|j: int| 0 <= j < old(passes)@.len() ==> #[trigger] pass_laid_out(old(passes)@, top as nat, j),
        forall|j: int| 0 <= j < old(passes)@.len() ==> {
            let q = #[trigger] old(passes)@[j];
            &&& q.coding_mode == PassCodingMode::Mq && q.termination == PassTermination::TermAll && !q.segmark
            &&& q.terminated
            &&& q.bytes@ == words[j]
            &&& q.length == q.bytes@.len()
            &&& (q.significant_before as nat, q.newly_significant as nat) == sigs[j]
        },
    ensures
        final(passes)@.len() == old(passes)@.len() + 1,
        final(data)@ == joined(words, final(passes)@.len() as nat),
        final(data)@.len() == lengths_sum(final(passes)@, final(passes)@.len()),
        forall|j: int| 0 <= j < final(passes)@.len() ==> #[trigger] pass_laid_out(final(passes)@, top as nat, j),
        forall|j: int| 0 <= j < final(passes)@.len() ==> {
            let q = #[trigger] final(passes)@[j];
            &&& q.coding_mode == PassCodingMode::Mq && q.termination == PassTermination::TermAll && !q.segmark
            &&& q.terminated
            &&& q.bytes@ == words[j]
            &&& q.length == q.bytes@.len()
            &&& (q.significant_before as nat, q.newly_significant as nat) == sigs[j]
        },
{
    let ghost old_passes = passes@;
    let ghost k = passes@.len();
    push_terminated_pass(passes, data, kind, bitplane, before, newly, bytes);
    proof {
        assert(passes@[k as int] == passes@.last());
        assert(data@ =~= joined(words, (k + 1) as nat));
        assert forall|j: int| 0 <= j < passes@.len() implies #[trigger] pass_laid_out(passes@, top as nat, j) by {
            if j < k {
                assert(passes@[j] == old_passes[j]) by {
                    assert(passes@.subrange(0, k as int)[j] == passes@[j]);
                }
                assert(pass_laid_out(old_passes, top as nat, j));
                lemma_lengths_sum_same(old_passes, passes@, (j + 1) as nat);
            }
        }
        assert forall|j: int| 0 <= j < passes@.len() implies {
            let q = #[trigger] passes@[j];
            &&& q.coding_mode == PassCodingMode::Mq && q.termination == PassTermination::TermAll && !q.segmark
            &&& q.terminated
            &&& q.bytes@ == words[j]
            &&& q.length == q.bytes@.len()
            &&& (q.significant_before as nat, q.newly_significant as nat) == sigs[j]
        } by {
            if j < k {
                assert(passes@.subrange(0, k as int)[j] == passes@[j]);
            }
        }
    }
}

/// One planned coding pass: its kind, its bit-plane and index, and how many coefficients are
/// significant before it, become significant in it, and are significant after it.
#[derive(Debug, Clone, Copy, PartialEq, Eq, Structural)]
pub struct PassPlan {
    pub kind: PassKind,
    pub bitplane: u8,
    pub pass_index: u16,
    pub significant_before: usize,
    pub newly_significant: usize,
    pub significant_after: usize,
}

/// Bit `q` of magnitude `m`.
pub open spec fn mag_bit(m: u32, q: nat) -> bool {
    ((m >> (q as u32)) & 1u32) != 0
}

/// A coefficient of magnitude `m` is significant once the bit-planes from `top` down to `p` have
/// been coded: one of those bits is set.
pub open spec fn sig_from(m: u32, top: nat, p: nat) -> bool
    decreases top + 1 - p,
{
    if p > top { false } else { mag_bit(m, p) || sig_from(m, top, p + 1) }
}

/// How many of the first `n` magnitudes are significant from `top` down to `p`.
pub open spec fn count_sig(mags: Seq<u32>, top: nat, p: nat, n: nat) -> nat
    decreases n,
{
    if n == 0 { 0 } else { count_sig(mags, top, p, (n - 1) as nat) + (if sig_from(mags[n - 1], top, p) { 1nat } else { 0nat }) }
}

/// How many of the first `n` magnitudes become significant on bit-plane `p`.
pub open spec fn count_new(mags: Seq<u32>, top: nat, p: nat, n: nat) -> nat
    decreases n,
{
    if n == 0 { 0 } else {
        count_new(mags, top, p, (n - 1) as nat)
            + (if mag_bit(mags[n - 1], p) && !sig_from(mags[n - 1], top, p + 1) { 1nat } else { 0nat })
    }
}

proof fn lemma_count_split(mags: Seq<u32>, top: nat, p: nat, n: nat)
    requires
        p <= top,
    ensures
        count_sig(mags, top, p, n) == count_sig(mags, top, p + 1, n) + count_new(mags, top, p, n),
        count_sig(mags, top, p, n) <= n,
    decreases n,
{
    if n > 0 {
        lemma_count_split(mags, top, p, (n - 1) as nat);
    }
}

/// The magnitudes of the coefficients.
pub open spec fn magnitudes(c: Seq<i32>) -> Seq<u32> {
    Seq::new(c.len(), |i: int| abs_i32(c[i]) as u32)
}

/// The significant count of `c` after the bit-planes from `top` down to `p`.
pub open spec fn sig_after(c: Seq<i32>, top: nat, p: nat) -> nat {
    count_sig(magnitudes(c), top, p, c.len())
}

/// Pass `j` of the plan of `c` with top bit-plane `top`: its kind, bit-plane and index, and its
/// significance counts (a cleanup pass on the top plane, then on each lower plane significance
/// propagation, where new coefficients become significant, then refinement and cleanup).
pub open spec fn pass_planned(q: PassPlan, c: Seq<i32>, top: nat, j: nat) -> bool {
    let p = pass_bitplane_at(top, j);
    &&& q.kind == pass_kind_at(j)
    &&& q.bitplane == p
    &&& q.pass_index == j
    &&& q.significant_after == sig_after(c, top, p as nat)
    &&& if j == 0 {
        q.significant_before == 0 && q.newly_significant == sig_after(c, top, top)
    } else if q.kind == PassKind::SignificancePropagation {
        q.significant_before == sig_after(c, top, (p + 1) as nat)
            && q.newly_significant == sig_after(c, top, p as nat) - sig_after(c, top, (p + 1) as nat)
    } else {
        q.significant_before == sig_after(c, top, p as nat) && q.newly_significant == 0
    }
}

/// Counts the coefficients that become significant on bit-plane `p`, setting their flags.
fn mark_plane(mags: &Vec<u32>, significant: &mut Vec<bool>, top: u32, p: u32) -> (newly: usize)
    requires
        p <= top < 32,
        old(significant)@.len() == mags@.len(),
        forall|i: int| 0 <= i < mags@.len() ==> #[trigger] old(significant)@[i] == sig_from(mags@[i], top as nat, (p + 1) as nat),
    ensures
        final(significant)@.len() == mags@.len(),
        forall|i: int| 0 <= i < mags@.len() ==> #[trigger] final(significant)@[i] == sig_from(mags@[i], top as nat, p as nat),
        newly as nat == count_new(mags@, top as nat, p as nat, mags@.len()),
{
    let mut newly: usize = 0;
    let mut i: usize = 0;
    while i < mags.len()
        invariant
            p <= top < 32,
            significant@.len() == mags@.len(),
            i <= mags@.len(),
            forall|k: int| 0 <= k < i ==> #[trigger] significant@[k] == sig_from(mags@[k], top as nat, p as nat),
            forall|k: int| i <= k < mags@.len() ==> #[trigger] significant@[k] == sig_from(mags@[k], top as nat, (p + 1) as nat),
            newly as nat == count_new(mags@, top as nat, p as nat, i as nat),
            newly <= i,
        decreases mags@.len() - i,
    {
        if !significant[i] {
            if ((mags[i] >> p) & 1) != 0 {
                significant.set(i, true);
                newly = newly + 1;
            }
        }
        proof {
            assert(sig_from(mags@[i as int], top as nat, p as nat)
                == (mag_bit(mags@[i as int], p as nat) || sig_from(mags@[i as int], top as nat, (p + 1) as nat)));
        }
        i = i + 1;
    }
    newly
}

/// Plans the coding passes of a block with `magnitude_bitplanes` magnitude bit-planes: a cleanup
/// pass on the top plane, then significance propagation, magnitude refinement and cleanup on each
/// lower plane, with the significance counts before and after each pass.
pub fn plan_coding_passes(coefficients: &[i32], magnitude_bitplanes: u8) -> (r: Vec<PassPlan>)
    requires
        magnitude_bitplanes <= 32 || coefficients@.len() == 0,
    ensures
        r@.len() == pass_count(magnitude_bitplanes as nat),
        forall|j: int| 0 <= j < r@.len() ==> #[trigger] pass_planned(r@[j], coefficients@, (magnitude_bitplanes - 1) as nat, j as nat),
{
    let mut passes: Vec<PassPlan> = Vec::new();
    if magnitude_bitplanes == 0 {
        return passes;
    }
    let n = coefficients.len();
    let mut mags: Vec<u32> = Vec::new();
    let mut significant: Vec<bool> = Vec::new();
    let mut i: usize = 0;
    while i < n
        invariant
            n == coefficients@.len(),
            i <= n,
            mags@.len() == i,
            significant@.len() == i,
            forall|k: int| 0 <= k < i ==> #[trigger] mags@[k] == abs_i32(coefficients@[k]) as u32,
            forall|k: int| 0 <= k < i ==> #[trigger] significant@[k] == false,
        decreases n - i,
    {
        mags.push(magnitude(coefficients[i]));
        significant.push(false);
        i = i + 1;
    }
    assert(mags@ =~= magnitudes(coefficients@));
    let top: u32 = (magnitude_bitplanes - 1) as u32;
    proof {
        lemma_count_sig_above(mags@, top as nat, n as nat);
        assert forall|k: int| 0 <= k < n implies #[trigger] significant@[k] == sig_from(mags@[k], top as nat, (top + 1) as nat) by {}
    }
    let newly = if n > 0 { mark_plane(&mags, &mut significant, top, top) } else { 0 };
    proof {
        lemma_count_split(mags@, top as nat, top as nat, n as nat);
        if n == 0 { assert(count_new(mags@, top as nat, top as nat, 0) == 0); }
    }
    let mut count: usize = newly;
    passes.push(PassPlan {
        kind: PassKind::Cleanup, bitplane: top as u8, pass_index: 0,
        significant_before: 0, newly_significant: newly, significant_after: count,
    });
    let mut bitplane: u32 = top;
    while bitplane > 0
        invariant
            n == coefficients@.len(),
            mags@ == magnitudes(coefficients@),
            mags@.len() == n,
            significant@.len() == n,
            top as nat == magnitude_bitplanes - 1,
            magnitude_bitplanes <= 32 || n == 0,
            bitplane <= top,
            n > 0 ==> forall|k: int| 0 <= k < n ==> #[trigger] significant@[k] == sig_from(mags@[k], top as nat, bitplane as nat),
            count as nat == sig_after(coefficients@, top as nat, bitplane as nat),
            count <= n,
            passes@.len() == 1 + 3 * (top - bitplane),
            forall|j: int| 0 <= j < passes@.len() ==> #[trigger] pass_planned(passes@[j], coefficients@, top as nat, j as nat),
        decreases bitplane,
    {
        let p = bitplane - 1;
        let newly = if n > 0 { mark_plane(&mags, &mut significant, top, p) } else { 0 };
        proof {
            lemma_count_split(mags@, top as nat, p as nat, n as nat);
            if n == 0 { assert(count_new(mags@, top as nat, p as nat, 0) == 0); }
        }
        let before = count;
        count = count + newly;
        let base = passes.len();
        let ghost old_passes = passes@;
        passes.push(PassPlan {
            kind: PassKind::SignificancePropagation, bitplane: p as u8, pass_index: base as u16,
            significant_before: before, newly_significant: newly, significant_after: count,
        });
        passes.push(PassPlan {
            kind: PassKind::MagnitudeRefinement, bitplane: p as u8, pass_index: (base + 1) as u16,
            significant_before: count, newly_significant: 0, significant_after: count,
        });
        passes.push(PassPlan {
            kind: PassKind::Cleanup, bitplane: p as u8, pass_index: (base + 2) as u16,
            significant_before: count, newly_significant: 0, significant_after: count,
        });
        proof {
            assert forall|j: int| 0 <= j < passes@.len() implies #[trigger] pass_planned(passes@[j], coefficients@, top as nat, j as nat) by {
                if j < base {
                    assert(passes@[j] == old_passes[j]);
                } else {
                    assert((j - 1) / 3 == top - bitplane);
                }
            }
        }
        bitplane = p;
    }
    passes
}

/// Above the top bit-plane nothing is significant.
proof fn lemma_count_sig_above(mags: Seq<u32>, top: nat, n: nat)
    ensures
        count_sig(mags, top, top + 1, n) == 0,
    decreases n,
{
    if n > 0 {
        lemma_count_sig_above(mags, top, (n - 1) as nat);
    }
}

} // verus!

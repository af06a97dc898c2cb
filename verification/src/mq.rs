//! The MQ arithmetic coder of JPEG 2000 (Annex C): an encoder that turns context-labelled
//! decisions into bytes and a decoder that reads them back.
use vstd::prelude::*;

verus! {

/// Number of coding contexts used by tier-1 coding.
pub const MQC_NUMCTXS: usize = 19;
/// First zero-coding context.
pub const T1_CTXNO_ZC: u8 = 0;
/// First sign-coding context.
pub const T1_CTXNO_SC: u8 = 9;
/// First magnitude-refinement context.
pub const T1_CTXNO_MAG: u8 = 14;
/// Run-length (aggregation) context.
pub const T1_CTXNO_AGG: u8 = 17;
/// Uniform context.
pub const T1_CTXNO_UNI: u8 = 18;

/// One row of the probability-estimation table.
#[derive(Debug, Clone, Copy, PartialEq, Eq, Structural)]
pub struct MqState {
    pub qeval: u16,
    pub mps: u8,
    pub nmps: u8,
    pub nlps: u8,
}

/// The probability estimate and the next states of the even (MPS = 0) state `2 k`; the odd state
/// `2 k + 1` has the same estimate with the sense of MPS flipped.
pub open spec fn state_row(k: int) -> (u16, u8, u8) {
    if k == 0 { (0x5601, 2, 3) }
    else if k == 1 { (0x3401, 4, 12) }
    else if k == 2 { (0x1801, 6, 18) }
    else if k == 3 { (0x0ac1, 8, 24) }
    else if k == 4 { (0x0521, 10, 58) }
    else if k == 5 { (0x0221, 76, 66) }
    else if k == 6 { (0x5601, 14, 13) }
    else if k == 7 { (0x5401, 16, 28) }
    else if k == 8 { (0x4801, 18, 28) }
    else if k == 9 { (0x3801, 20, 28) }
    else if k == 10 { (0x3001, 22, 34) }
    else if k == 11 { (0x2401, 24, 36) }
    else if k == 12 { (0x1c01, 26, 40) }
    else if k == 13 { (0x1601, 58, 42) }
    else if k == 14 { (0x5601, 30, 29) }
    else if k == 15 { (0x5401, 32, 28) }
    else if k == 16 { (0x5101, 34, 30) }
    else if k == 17 { (0x4801, 36, 32) }
    else if k == 18 { (0x3801, 38, 34) }
    else if k == 19 { (0x3401, 40, 36) }
    else if k == 20 { (0x3001, 42, 38) }
    else if k == 21 { (0x2801, 44, 38) }
    else if k == 22 { (0x2401, 46, 40) }
    else if k == 23 { (0x2201, 48, 42) }
    else if k == 24 { (0x1c01, 50, 44) }
    else if k == 25 { (0x1801, 52, 46) }
    else if k == 26 { (0x1601, 54, 48) }
    else if k == 27 { (0x1401, 56, 50) }
    else if k == 28 { (0x1201, 58, 52) }
    else if k == 29 { (0x1101, 60, 54) }
    else if k == 30 { (0x0ac1, 62, 56) }
    else if k == 31 { (0x09c1, 64, 58) }
    else if k == 32 { (0x08a1, 66, 60) }
    else if k == 33 { (0x0521, 68, 62) }
    else if k == 34 { (0x0441, 70, 64) }
    else if k == 35 { (0x02a1, 72, 66) }
    else if k == 36 { (0x0221, 74, 68) }
    else if k == 37 { (0x0141, 76, 70) }
    else if k == 38 { (0x0111, 78, 72) }
    else if k == 39 { (0x0085, 80, 74) }
    else if k == 40 { (0x0049, 82, 76) }
    else if k == 41 { (0x0025, 84, 78) }
    else if k == 42 { (0x0015, 86, 80) }
    else if k == 43 { (0x0009, 88, 82) }
    else if k == 44 { (0x0005, 90, 84) }
    else if k == 45 { (0x0001, 90, 86) }
    else { (0x5601, 92, 92) }
}

fn row_of(k: u8) -> (r: (u16, u8, u8))
    requires
        k < 47,
    ensures
        r == state_row(k as int),
{
    match k {
        0 => (0x5601, 2, 3),
        1 => (0x3401, 4, 12),
        2 => (0x1801, 6, 18),
        3 => (0x0ac1, 8, 24),
        4 => (0x0521, 10, 58),
        5 => (0x0221, 76, 66),
        6 => (0x5601, 14, 13),
        7 => (0x5401, 16, 28),
        8 => (0x4801, 18, 28),
        9 => (0x3801, 20, 28),
        10 => (0x3001, 22, 34),
        11 => (0x2401, 24, 36),
        12 => (0x1c01, 26, 40),
        13 => (0x1601, 58, 42),
        14 => (0x5601, 30, 29),
        15 => (0x5401, 32, 28),
        16 => (0x5101, 34, 30),
        17 => (0x4801, 36, 32),
        18 => (0x3801, 38, 34),
        19 => (0x3401, 40, 36),
        20 => (0x3001, 42, 38),
        21 => (0x2801, 44, 38),
        22 => (0x2401, 46, 40),
        23 => (0x2201, 48, 42),
        24 => (0x1c01, 50, 44),
        25 => (0x1801, 52, 46),
        26 => (0x1601, 54, 48),
        27 => (0x1401, 56, 50),
        28 => (0x1201, 58, 52),
        29 => (0x1101, 60, 54),
        30 => (0x0ac1, 62, 56),
        31 => (0x09c1, 64, 58),
        32 => (0x08a1, 66, 60),
        33 => (0x0521, 68, 62),
        34 => (0x0441, 70, 64),
        35 => (0x02a1, 72, 66),
        36 => (0x0221, 74, 68),
        37 => (0x0141, 76, 70),
        38 => (0x0111, 78, 72),
        39 => (0x0085, 80, 74),
        40 => (0x0049, 82, 76),
        41 => (0x0025, 84, 78),
        42 => (0x0015, 86, 80),
        43 => (0x0009, 88, 82),
        44 => (0x0005, 90, 84),
        45 => (0x0001, 90, 86),
        _ => (0x5601, 92, 92),
    }
}

/// State `ix` of the probability-estimation table (Table C.2), for `ix < 94`.
pub open spec fn spec_state(ix: int) -> MqState {
    let r = state_row(ix / 2);
    let b = ix % 2;
    MqState {
        qeval: r.0,
        mps: b as u8,
        nmps: (r.1 + b) as u8,
        nlps: if b == 0 { r.2 } else if r.2 % 2 == 0 { (r.2 + 1) as u8 } else { (r.2 - 1) as u8 },
    }
}

/// Every state names valid successors and has a probability estimate in `1..=0x5601`.
pub proof fn lemma_state_table(ix: int)
    requires
        0 <= ix < 94,
    ensures
        spec_state(ix).nmps < 94,
        spec_state(ix).nlps < 94,
        1 <= spec_state(ix).qeval <= 0x5601,
        spec_state(ix).mps == ix % 2,
{
    let k = ix / 2;
    assert(0 <= k < 47);
    assert(state_row(k).1 <= 92 && state_row(k).1 % 2 == 0 && state_row(k).2 <= 92
        && 1 <= state_row(k).0 <= 0x5601);
}

/// State `ix` of the probability-estimation table.
pub fn mq_state(ix: u8) -> (s: MqState)
    requires
        ix < 94,
    ensures
        s == spec_state(ix as int),
{
    let r = row_of(ix / 2);
    let b = ix % 2;
    let nlps = if b == 0 { r.2 } else if r.2 % 2 == 0 { r.2 + 1 } else { r.2 - 1 };
    proof { lemma_state_table(ix as int); }
    MqState { qeval: r.0, mps: b, nmps: r.1 + b, nlps }
}

/// The context states after a reset: all zero but for the uniform, run-length and first
/// zero-coding contexts.
pub open spec fn initial_contexts() -> Seq<u8> {
    Seq::new(MQC_NUMCTXS as nat, |i: int| if i == T1_CTXNO_UNI { 92u8 } else if i == T1_CTXNO_AGG { 6u8 }
        else if i == T1_CTXNO_ZC { 8u8 } else { 0u8 })
}

/// Context states that all name a table row.
pub open spec fn contexts_ok(ctxs: Seq<u8>) -> bool {
    ctxs.len() == MQC_NUMCTXS && forall|i: int| 0 <= i < ctxs.len() ==> #[trigger] ctxs[i] < 94
}

fn fresh_contexts() -> (v: Vec<u8>)
    ensures
        v@ == initial_contexts(),
{
    let mut v: Vec<u8> = Vec::new();
    let mut i: usize = 0;
    while i < MQC_NUMCTXS
        invariant
            i <= MQC_NUMCTXS,
            v@.len() == i,
            forall|j: int| 0 <= j < i ==> #[trigger] v@[j] == initial_contexts()[j],
        decreases MQC_NUMCTXS - i,
    {
        let s: u8 = if i == 18 { 92 } else if i == 17 { 6 } else if i == 0 { 8 } else { 0 };
        v.push(s);
        i += 1;
    }
    assert(v@ =~= initial_contexts());
    v
}

// ----------------------------------------------------------------------------
// Encoder
// ----------------------------------------------------------------------------

/// The registers, the bytes written so far (after a leading placeholder byte) and the context
/// states of an encoder.
pub struct MqEncView {
    pub a: u32,
    pub c: u32,
    pub ct: u32,
    pub out: Seq<u8>,
    pub ctxs: Seq<u8>,
}

/// The MQ encoder.
pub struct MqCoder {
    a: u32,
    c: u32,
    ct: u32,
    out: Vec<u8>,
    pos: usize,
    ctxs: Vec<u8>,
}

impl View for MqCoder {
    type V = MqEncView;

    closed spec fn view(&self) -> MqEncView {
        MqEncView { a: self.a, c: self.c, ct: self.ct, out: self.out@, ctxs: self.ctxs@ }
    }
}

/// The encoder state between two decisions.
pub open spec fn enc_ok(s: MqEncView) -> bool {
    &&& s.out.len() >= 1
    &&& 0x8000 <= s.a <= 0xffff
    &&& 1 <= s.ct <= 12
    &&& contexts_ok(s.ctxs)
    &&& (s.ct == 12 ==> s.out == seq![0u8])
}

/// The state of a freshly initialised encoder with the given context states.
pub open spec fn enc_initial(ctxs: Seq<u8>) -> MqEncView {
    MqEncView { a: 0x8000, c: 0, ct: 12, out: seq![0u8], ctxs }
}

/// Byte-out (Figure C.8, with the bit-stuffing of C.2.6): emits the next byte of `c`,
/// propagating a carry into the last byte written.
pub open spec fn enc_byteout(s: MqEncView) -> MqEncView {
    let last = s.out.last();
    if last == 0xff {
        MqEncView { c: s.c & 0xfffff, ct: 7, out: s.out.push((s.c >> 20u32) as u8), ..s }
    } else if s.c & 0x0800_0000 == 0 {
        MqEncView { c: s.c & 0x7ffff, ct: 8, out: s.out.push((s.c >> 19u32) as u8), ..s }
    } else {
        let bumped = (last + 1) as u8;
        let out = s.out.update(s.out.len() - 1, bumped);
        if bumped == 0xff {
            let c = s.c & 0x07ff_ffff;
            MqEncView { c: c & 0xfffff, ct: 7, out: out.push((c >> 20u32) as u8), ..s }
        } else {
            MqEncView { c: s.c & 0x7ffff, ct: 8, out: out.push((s.c >> 19u32) as u8), ..s }
        }
    }
}

/// Renormalisation (Figure C.7): doubles `a` and `c` until `a` reaches 0x8000, emitting a byte
/// each time the bit counter runs out.
pub open spec fn enc_renorm(s: MqEncView) -> MqEncView
    decreases 0x10000 - s.a,
{
    if s.a >= 0x8000 || s.a == 0 || s.ct == 0 {
        s
    } else {
        let t = MqEncView { a: (s.a * 2) as u32, c: s.c << 1u32, ct: (s.ct - 1) as u32, ..s };
        let t2 = if t.ct == 0 { enc_byteout(t) } else { t };
        enc_renorm(t2)
    }
}

/// Coding one decision `bit` in context `ctx` (Figures C.3 to C.6).
pub open spec fn enc_decision(s: MqEncView, ctx: int, bit: u8) -> MqEncView {
    let st = spec_state(s.ctxs[ctx] as int);
    let q = st.qeval as u32;
    let a1 = (s.a - q) as u32;
    if bit == st.mps {
        if a1 < 0x8000 {
            let t = if a1 < q {
                MqEncView { a: q, ctxs: s.ctxs.update(ctx, st.nmps), ..s }
            } else {
                MqEncView { a: a1, c: vstd::wrapping::u32_specs::wrapping_add(s.c, q),
                    ctxs: s.ctxs.update(ctx, st.nmps), ..s }
            };
            enc_renorm(t)
        } else {
            MqEncView { a: a1, c: vstd::wrapping::u32_specs::wrapping_add(s.c, q), ..s }
        }
    } else {
        let t = if a1 < q {
            MqEncView { a: a1, c: vstd::wrapping::u32_specs::wrapping_add(s.c, q),
                ctxs: s.ctxs.update(ctx, st.nlps), ..s }
        } else {
            MqEncView { a: q, ctxs: s.ctxs.update(ctx, st.nlps), ..s }
        };
        enc_renorm(t)
    }
}

/// Coding the decisions `bits`, each in its context, one after the other.
pub open spec fn enc_decisions(s: MqEncView, bits: Seq<(u8, u8)>) -> MqEncView
    decreases bits.len(),
{
    if bits.len() == 0 {
        s
    } else {
        let prev = enc_decisions(s, bits.drop_last());
        enc_decision(prev, bits.last().0 as int, bits.last().1)
    }
}

/// Setting the final bits of `c` (Figure C.11).
pub open spec fn enc_setbits(s: MqEncView) -> MqEncView {
    let temp = vstd::wrapping::u32_specs::wrapping_add(s.c, s.a);
    let c = s.c | 0xffff;
    MqEncView { c: if c >= temp { (c - 0x8000) as u32 } else { c }, ..s }
}

/// Flushing (Figure C.10): sets the final bits and emits two more bytes.
pub open spec fn enc_flush(s: MqEncView) -> MqEncView {
    let s1 = enc_setbits(s);
    let s2 = enc_byteout(MqEncView { c: s1.c << s1.ct, ..s1 });
    enc_byteout(MqEncView { c: s2.c << s2.ct, ..s2 })
}

/// The codeword in `out`: what follows the placeholder byte, without a final 0xff.
pub open spec fn enc_codeword(out: Seq<u8>) -> Seq<u8> {
    if out.last() == 0xff && out.len() >= 2 {
        out.subrange(1, out.len() - 1)
    } else {
        out.subrange(1, out.len() as int)
    }
}

proof fn lemma_byteout_ok(s: MqEncView)
    requires
        s.out.len() >= 1,
    ensures
        enc_byteout(s).out.len() == s.out.len() + 1,
        enc_byteout(s).ct == 7 || enc_byteout(s).ct == 8,
        enc_byteout(s).a == s.a,
        enc_byteout(s).ctxs == s.ctxs,
{
}

proof fn lemma_renorm_ok(s: MqEncView)
    requires
        s.out.len() >= 1,
        1 <= s.a <= 0xffff,
        1 <= s.ct <= 12,
    ensures
        enc_renorm(s).out.len() >= s.out.len(),
        0x8000 <= enc_renorm(s).a <= 0xffff,
        1 <= enc_renorm(s).ct <= 12,
        enc_renorm(s).ctxs == s.ctxs,
        enc_renorm(s).ct <= 11 || enc_renorm(s) == s,
    decreases 0x10000 - s.a,
{
    if s.a < 0x8000 {
        let t = MqEncView { a: (s.a * 2) as u32, c: s.c << 1u32, ct: (s.ct - 1) as u32, ..s };
        if t.ct == 0 {
            lemma_byteout_ok(t);
            lemma_renorm_ok(enc_byteout(t));
        } else {
            lemma_renorm_ok(t);
        }
    }
}

proof fn lemma_decision_ok(s: MqEncView, ctx: int, bit: u8)
    requires
        enc_ok(s),
        0 <= ctx < MQC_NUMCTXS,
    ensures
        enc_ok(enc_decision(s, ctx, bit)),
        enc_decision(s, ctx, bit).out.len() >= s.out.len(),
{
    let ix = s.ctxs[ctx] as int;
    lemma_state_table(ix);
    let st = spec_state(ix);
    let q = st.qeval as u32;
    let a1 = (s.a - q) as u32;
    if bit == st.mps {
        if a1 < 0x8000 {
            let t = if a1 < q {
                MqEncView { a: q, ctxs: s.ctxs.update(ctx, st.nmps), ..s }
            } else {
                MqEncView { a: a1, c: vstd::wrapping::u32_specs::wrapping_add(s.c, q),
                    ctxs: s.ctxs.update(ctx, st.nmps), ..s }
            };
            lemma_renorm_ok(t);
        }
    } else {
        let t = if a1 < q {
            MqEncView { a: a1, c: vstd::wrapping::u32_specs::wrapping_add(s.c, q),
                ctxs: s.ctxs.update(ctx, st.nlps), ..s }
        } else {
            MqEncView { a: q, ctxs: s.ctxs.update(ctx, st.nlps), ..s }
        };
        lemma_renorm_ok(t);
    }
}

impl MqCoder {
    /// The encoder's registers, output and contexts are in a consistent state.
    pub closed spec fn wf(&self) -> bool {
        &&& enc_ok(self@)
        &&& self.pos + 1 == self.out@.len()
    }

    /// A fresh encoder.
    pub fn new() -> (r: Self)
        ensures
            r.wf(),
            r@ == enc_initial(initial_contexts()),
    {
        Self::with_capacity(256)
    }

    /// A fresh encoder whose output buffer starts with room for `capacity` bytes.
    pub fn with_capacity(capacity: usize) -> (r: Self)
        ensures
            r.wf(),
            r@ == enc_initial(initial_contexts()),
    {
        let cap = if capacity < 1 { 1 } else { capacity };
        let mut out: Vec<u8> = Vec::with_capacity(cap);
        out.push(0);
        let r = MqCoder { a: 0x8000, c: 0, ct: 12, out, pos: 0, ctxs: fresh_contexts() };
        assert(r@.out =~= seq![0u8]);
        r
    }

    /// Returns the encoder to its freshly created state.
    pub fn reset(&mut self)
        ensures
            final(self).wf(),
            final(self)@ == enc_initial(initial_contexts()),
    {
        self.a = 0x8000;
        self.c = 0;
        self.ct = 12;
        self.out.clear();
        self.out.push(0);
        self.pos = 0;
        self.ctxs = fresh_contexts();
        assert(self.out@ =~= seq![0u8]);
    }

    /// Restarts the registers and the output, keeping the context states.
    pub fn restart_init(&mut self)
        requires
            old(self).wf(),
        ensures
            final(self).wf(),
            final(self)@ == enc_initial(old(self)@.ctxs),
    {
        self.a = 0x8000;
        self.c = 0;
        self.ct = 12;
        self.out.clear();
        self.out.push(0);
        self.pos = 0;
        assert(self.out@ =~= seq![0u8]);
    }

    /// Sets context `ctx` to state `msb + 2 * prob`.
    pub fn set_state(&mut self, ctx: u8, msb: u8, prob: u8)
        requires
            old(self).wf(),
            (ctx as int) < MQC_NUMCTXS,
            msb + 2 * prob < 94,
        ensures
            final(self).wf(),
            final(self)@ == (MqEncView { ctxs: old(self)@.ctxs.update(ctx as int, (msb + 2 * prob) as u8), ..old(self)@ }),
    {
        let index = msb + 2 * prob;
        self.ctxs.set(ctx as usize, index);
    }

    /// The state index of context `ctx`.
    pub fn state_index(&self, ctx: u8) -> (s: u8)
        requires
            self.wf(),
            (ctx as int) < MQC_NUMCTXS,
        ensures
            s == self@.ctxs[ctx as int],
    {
        self.ctxs[ctx as usize]
    }

    /// Number of bytes committed to the output so far.
    pub fn numbytes(&self) -> (n: usize)
        requires
            self.wf(),
        ensures
            n + 1 == self@.out.len(),
    {
        self.pos
    }

    fn write_next(&mut self, byte: u8)
        requires
            old(self).pos + 1 == old(self).out@.len(),
        ensures
            final(self).out@ == old(self).out@.push(byte),
            final(self).pos + 1 == final(self).out@.len(),
            final(self).a == old(self).a,
            final(self).c == old(self).c,
            final(self).ct == old(self).ct,
            final(self).ctxs == old(self).ctxs,
    {
        self.out.push(byte);
        self.pos = self.out.len() - 1;
    }

    fn byteout(&mut self)
        requires
            old(self).pos + 1 == old(self).out@.len(),
        ensures
            final(self)@ == enc_byteout(old(self)@),
            final(self).pos + 1 == final(self).out@.len(),
    {
        let last = self.out[self.pos];
        if last == 0xff {
            self.write_next((self.c >> 20u32) as u8);
            self.c = self.c & 0xfffff;
            self.ct = 7;
        } else if self.c & 0x0800_0000 == 0 {
            self.write_next((self.c >> 19u32) as u8);
            self.c = self.c & 0x7ffff;
            self.ct = 8;
        } else {
            let bumped = last + 1;
            self.out.set(self.pos, bumped);
            if bumped == 0xff {
                self.c = self.c & 0x07ff_ffff;
                self.write_next((self.c >> 20u32) as u8);
                self.c = self.c & 0xfffff;
                self.ct = 7;
            } else {
                self.write_next((self.c >> 19u32) as u8);
                self.c = self.c & 0x7ffff;
                self.ct = 8;
            }
        }
        assert(self@ =~= enc_byteout(old(self)@));
    }

    fn renorme(&mut self)
        requires
            old(self).pos + 1 == old(self).out@.len(),
            old(self).out@.len() >= 1,
            1 <= old(self).a <= 0xffff,
            1 <= old(self).ct <= 12,
        ensures
            final(self)@ == enc_renorm(old(self)@),
            final(self).pos + 1 == final(self).out@.len(),
    {
        let ghost target = enc_renorm(self@);
        while self.a < 0x8000
            invariant
                self.pos + 1 == self.out@.len(),
                self.out@.len() >= 1,
                1 <= self.a <= 0xffff,
                1 <= self.ct <= 12,
                enc_renorm(self@) == target,
            decreases 0x10000 - self.a,
        {
            self.a = self.a * 2;
            self.c = self.c << 1u32;
            self.ct = self.ct - 1;
            if self.ct == 0 {
                proof { lemma_byteout_ok(self@); }
                self.byteout();
            }
        }
    }

    /// Codes decision `bit` in context `ctx`.
    pub fn encode_with_ctx(&mut self, ctx: u8, bit: u8)
        requires
            old(self).wf(),
            (ctx as int) < MQC_NUMCTXS,
        ensures
            final(self).wf(),
            final(self)@ == enc_decision(old(self)@, ctx as int, bit),
    {
        proof { lemma_state_table(self.ctxs@[ctx as int] as int); }
        let state = mq_state(self.ctxs[ctx as usize]);
        let q = state.qeval as u32;
        self.a = self.a - q;
        if bit == state.mps {
            if self.a < 0x8000 {
                if self.a < q {
                    self.a = q;
                } else {
                    self.c = self.c.wrapping_add(q);
                }
                self.ctxs.set(ctx as usize, state.nmps);
                self.renorme();
            } else {
                self.c = self.c.wrapping_add(q);
            }
        } else {
            if self.a < q {
                self.c = self.c.wrapping_add(q);
            } else {
                self.a = q;
            }
            self.ctxs.set(ctx as usize, state.nlps);
            self.renorme();
        }
        proof { lemma_decision_ok(old(self)@, ctx as int, bit); }
        assert(self@ =~= enc_decision(old(self)@, ctx as int, bit));
    }

    /// Codes the four decisions of a segmentation symbol (1, 0, 1, 0) in the uniform context.
    pub fn segmark_encode(&mut self)
        requires
            old(self).wf(),
        ensures
            final(self).wf(),
            final(self)@ == enc_decisions(old(self)@, seq![(T1_CTXNO_UNI, 1u8), (T1_CTXNO_UNI, 0u8),
                (T1_CTXNO_UNI, 1u8), (T1_CTXNO_UNI, 0u8)]),
    {
        let ghost s0 = self@;
        self.encode_with_ctx(T1_CTXNO_UNI, 1);
        self.encode_with_ctx(T1_CTXNO_UNI, 0);
        self.encode_with_ctx(T1_CTXNO_UNI, 1);
        self.encode_with_ctx(T1_CTXNO_UNI, 0);
        proof {
            let bits = seq![(T1_CTXNO_UNI, 1u8), (T1_CTXNO_UNI, 0u8), (T1_CTXNO_UNI, 1u8), (T1_CTXNO_UNI, 0u8)];
            assert(bits.drop_last().drop_last().drop_last().drop_last() =~= Seq::<(u8, u8)>::empty());
            assert(bits.drop_last().drop_last().drop_last() =~= seq![(T1_CTXNO_UNI, 1u8)]);
            assert(bits.drop_last().drop_last() =~= seq![(T1_CTXNO_UNI, 1u8), (T1_CTXNO_UNI, 0u8)]);
            assert(bits.drop_last() =~= seq![(T1_CTXNO_UNI, 1u8), (T1_CTXNO_UNI, 0u8), (T1_CTXNO_UNI, 1u8)]);
            reveal_with_fuel(enc_decisions, 5);
        }
    }

    fn setbits(&mut self)
        requires
            old(self).wf(),
        ensures
            final(self).wf(),
            final(self)@ == enc_setbits(old(self)@),
            final(self).pos == old(self).pos,
    {
        let temp = self.c.wrapping_add(self.a);
        let c0 = self.c;
        assert(c0 | 0xffff >= 0xffff) by (bit_vector);
        self.c = self.c | 0xffff;
        if self.c >= temp {
            self.c = self.c - 0x8000;
        }
    }

    /// Terminates the codeword (Figure C.10).
    pub fn flush(&mut self)
        requires
            old(self).wf(),
        ensures
            final(self).wf(),
            final(self)@ == enc_flush(old(self)@),
    {
        self.setbits();
        self.c = self.c << self.ct;
        proof { lemma_byteout_ok(self@); }
        self.byteout();
        self.c = self.c << self.ct;
        proof { lemma_byteout_ok(self@); }
        self.byteout();
    }

    /// The codeword written so far: the bytes after the placeholder, without a final 0xff.
    pub fn take_bytes(&self) -> (r: Vec<u8>)
        requires
            self.wf(),
        ensures
            r@ == enc_codeword(self@.out),
    {
        let len = self.out.len();
        let end = if self.out[self.pos] == 0xff && self.pos >= 1 { self.pos } else { len };
        let mut r: Vec<u8> = Vec::new();
        let mut i: usize = 1;
        while i < end
            invariant
                1 <= i <= end <= self.out@.len(),
                self.wf(),
                end == (if self@.out.last() == 0xff && self.out@.len() >= 2 { self.out@.len() - 1 }
                    else { self.out@.len() as int }),
                r@ == self.out@.subrange(1, i as int),
            decreases end - i,
        {
            r.push(self.out[i]);
            i += 1;
            assert(r@ =~= self.out@.subrange(1, i as int));
        }
        assert(r@ =~= enc_codeword(self@.out));
        r
    }

    /// Terminates the codeword and returns it.
    pub fn finish(self) -> (r: Vec<u8>)
        requires
            self.wf(),
        ensures
            r@ == enc_codeword(enc_flush(self@).out),
    {
        let mut me = self;
        me.flush();
        me.take_bytes()
    }

    /// Terminates the codeword, returns it, and restarts the registers for the next pass while
    /// keeping the context states.
    pub fn flush_and_restart(&mut self) -> (r: Vec<u8>)
        requires
            old(self).wf(),
        ensures
            final(self).wf(),
            r@ == enc_codeword(enc_flush(old(self)@).out),
            final(self)@ == enc_initial(old(self)@.ctxs),
    {
        self.flush();
        let bytes = self.take_bytes();
        self.restart_init();
        bytes
    }
}


/// The byte-outs of the error-resilient termination, while `k` bits remain to be pushed out.
pub open spec fn enc_erterm_loop(s: MqEncView, k: int) -> MqEncView
    decreases k,
{
    if k <= 0 || s.ct > 12 {
        s
    } else {
        let t = enc_byteout(MqEncView { c: s.c << s.ct, ct: 0, ..s });
        if t.ct == 0 || k - t.ct <= 0 { t } else { enc_erterm_loop(t, k - t.ct) }
    }
}

/// Error-resilient termination (predictable termination of Annex D.4.2).
pub open spec fn enc_erterm(s: MqEncView) -> MqEncView {
    let t = enc_erterm_loop(s, 12 - s.ct);
    if t.out.last() != 0xff { enc_byteout(t) } else { t }
}

impl MqCoder {
    /// Terminates the codeword the error-resilient way and returns the bytes written after the
    /// placeholder, the last one excluded.
    pub fn erterm_flush(&mut self) -> (r: Vec<u8>)
        requires
            old(self).wf(),
        ensures
            final(self)@ == enc_erterm(old(self)@),
            r@ == final(self)@.out.subrange(1, final(self)@.out.len() - 1),
            final(self).wf(),
            final(self)@.out.len() >= 2,
    {
        let ghost s0 = self@;
        let mut k: i32 = 12 - self.ct as i32;
        while k > 0
            invariant
                self.pos + 1 == self.out@.len(),
                self.out@.len() >= 1,
                1 <= self.ct <= 12,
                self.a == s0.a,
                self.ctxs@ == s0.ctxs,
                enc_ok(s0),
                k <= 12,
                enc_erterm_loop(self@, k as int) == enc_erterm_loop(s0, 12 - s0.ct),
                (self@ == s0 && s0.ct == 12 - k) || (self.out@.len() >= 2 && (self.ct == 7 || self.ct == 8)),
            decreases k + 8,
        {
            self.c = self.c << self.ct;
            self.ct = 0;
            proof { lemma_byteout_ok(self@); }
            self.byteout();
            k = k - self.ct as i32;
        }
        if self.out[self.pos] != 0xff {
            proof { lemma_byteout_ok(self@); }
            self.byteout();
        }
        let mut r: Vec<u8> = Vec::new();
        let mut i: usize = 1;
        proof {
            if self.out@.len() < 2 {
                // only when the loop did not run and no byte-out happened
                assert(self.out@.last() == 0xff);
            }
        }
        let end = self.pos;
        while i < end
            invariant
                1 <= i,
                end + 1 == self.out@.len(),
                i <= end || end == 0,
                r@ == self.out@.subrange(1, i as int),
            decreases end - i,
        {
            r.push(self.out[i]);
            i += 1;
            assert(r@ =~= self.out@.subrange(1, i as int));
        }
        assert(r@ =~= self.out@.subrange(1, self.out@.len() - 1));
        r
    }
}

// ----------------------------------------------------------------------------
// Decoder
// ----------------------------------------------------------------------------

/// The registers, the read position and the context states of a decoder.
pub struct MqDecView {
    pub a: u32,
    pub c: u32,
    pub ct: u32,
    pub bp: nat,
    pub ctxs: Seq<u8>,
}

/// Byte `i` of the codeword, with 0xff past its end.
pub open spec fn byte_at(bytes: Seq<u8>, i: int) -> u8 {
    if 0 <= i < bytes.len() { bytes[i] } else { 0xff }
}

/// Byte-in (Figure C.18, with the unstuffing of C.3.4).
pub open spec fn dec_bytein(s: MqDecView, bytes: Seq<u8>) -> MqDecView {
    let next = byte_at(bytes, s.bp + 1int);
    if byte_at(bytes, s.bp as int) == 0xff {
        if next > 0x8f {
            MqDecView { c: vstd::wrapping::u32_specs::wrapping_add(s.c, 0xff00), ct: 8, ..s }
        } else {
            MqDecView { bp: s.bp + 1, c: vstd::wrapping::u32_specs::wrapping_add(s.c, ((next as u32) * 512) as u32), ct: 7, ..s }
        }
    } else {
        MqDecView { bp: s.bp + 1, c: vstd::wrapping::u32_specs::wrapping_add(s.c, ((next as u32) * 256) as u32), ct: 8, ..s }
    }
}

/// Renormalisation of the decoder (Figure C.17).
pub open spec fn dec_renorm(s: MqDecView, bytes: Seq<u8>) -> MqDecView
    decreases 0x10000 - s.a,
{
    if s.a >= 0x8000 || s.a == 0 {
        s
    } else {
        let t = if s.ct == 0 { dec_bytein(s, bytes) } else { s };
        if t.ct == 0 {
            t
        } else {
            dec_renorm(MqDecView { a: (t.a * 2) as u32, c: t.c << 1u32, ct: (t.ct - 1) as u32, ..t }, bytes)
        }
    }
}

/// The state of a decoder started on `bytes` (Figure C.19).
pub open spec fn dec_initial(bytes: Seq<u8>) -> MqDecView {
    let c0: u32 = if bytes.len() == 0 { 0xff_0000 } else { ((bytes[0] as u32) * 65536) as u32 };
    let s = dec_bytein(MqDecView { a: 0x8000, c: c0, ct: 0, bp: 0, ctxs: initial_contexts() }, bytes);
    MqDecView { c: s.c << 7u32, ct: if s.ct >= 7 { (s.ct - 7) as u32 } else { 0 }, ..s }
}

/// Decoding one decision in context `ctx` (Figures C.15 and C.16): the new state and the decision.
pub open spec fn dec_decision(s: MqDecView, bytes: Seq<u8>, ctx: int) -> (MqDecView, u8) {
    let st = spec_state(s.ctxs[ctx] as int);
    let q = st.qeval as u32;
    let a1 = (s.a - q) as u32;
    let other = (1 - st.mps) as u8;
    let (t, bit) = if (s.c >> 16u32) < q {
        if a1 < q {
            (MqDecView { a: q, ctxs: s.ctxs.update(ctx, st.nmps), ..s }, st.mps)
        } else {
            (MqDecView { a: q, ctxs: s.ctxs.update(ctx, st.nlps), ..s }, other)
        }
    } else {
        let c1 = (s.c - q * 65536) as u32;
        if a1 < 0x8000 {
            if a1 < q {
                (MqDecView { a: a1, c: c1, ctxs: s.ctxs.update(ctx, st.nlps), ..s }, other)
            } else {
                (MqDecView { a: a1, c: c1, ctxs: s.ctxs.update(ctx, st.nmps), ..s }, st.mps)
            }
        } else {
            (MqDecView { a: a1, c: c1, ..s }, st.mps)
        }
    };
    (dec_renorm(t, bytes), bit)
}

/// The decoder state between two decisions.
pub open spec fn dec_ok(s: MqDecView, bytes: Seq<u8>) -> bool {
    &&& 0x8000 <= s.a <= 0xffff
    &&& s.ct <= 8
    &&& s.bp <= bytes.len()
    &&& contexts_ok(s.ctxs)
}

proof fn lemma_bytein_ok(s: MqDecView, bytes: Seq<u8>)
    requires
        s.bp <= bytes.len(),
    ensures
        dec_bytein(s, bytes).bp <= bytes.len(),
        dec_bytein(s, bytes).ct == 7 || dec_bytein(s, bytes).ct == 8,
        dec_bytein(s, bytes).a == s.a,
        dec_bytein(s, bytes).ctxs == s.ctxs,
{
}

proof fn lemma_dec_renorm_ok(s: MqDecView, bytes: Seq<u8>)
    requires
        1 <= s.a <= 0xffff,
        s.ct <= 8,
        s.bp <= bytes.len(),
    ensures
        0x8000 <= dec_renorm(s, bytes).a <= 0xffff,
        dec_renorm(s, bytes).ct <= 8,
        dec_renorm(s, bytes).bp <= bytes.len(),
        dec_renorm(s, bytes).ctxs == s.ctxs,
    decreases 0x10000 - s.a,
{
    if s.a < 0x8000 {
        let t = if s.ct == 0 { dec_bytein(s, bytes) } else { s };
        if s.ct == 0 {
            lemma_bytein_ok(s, bytes);
        }
        lemma_dec_renorm_ok(MqDecView { a: (t.a * 2) as u32, c: t.c << 1u32, ct: (t.ct - 1) as u32, ..t }, bytes);
    }
}

proof fn lemma_dec_decision_ok(s: MqDecView, bytes: Seq<u8>, ctx: int)
    requires
        dec_ok(s, bytes),
        0 <= ctx < MQC_NUMCTXS,
    ensures
        dec_ok(dec_decision(s, bytes, ctx).0, bytes),
        dec_decision(s, bytes, ctx).1 <= 1,
{
    let st = spec_state(s.ctxs[ctx] as int);
    lemma_state_table(s.ctxs[ctx] as int);
    let q = st.qeval as u32;
    let a1 = (s.a - q) as u32;
    let other = (1 - st.mps) as u8;
    let (t, bit) = if (s.c >> 16u32) < q {
        if a1 < q {
            (MqDecView { a: q, ctxs: s.ctxs.update(ctx, st.nmps), ..s }, st.mps)
        } else {
            (MqDecView { a: q, ctxs: s.ctxs.update(ctx, st.nlps), ..s }, other)
        }
    } else {
        let c1 = (s.c - q * 65536) as u32;
        if a1 < 0x8000 {
            if a1 < q {
                (MqDecView { a: a1, c: c1, ctxs: s.ctxs.update(ctx, st.nlps), ..s }, other)
            } else {
                (MqDecView { a: a1, c: c1, ctxs: s.ctxs.update(ctx, st.nmps), ..s }, st.mps)
            }
        } else {
            (MqDecView { a: a1, c: c1, ..s }, st.mps)
        }
    };
    lemma_dec_renorm_ok(t, bytes);
}

/// The MQ decoder, reading a codeword.
pub struct MqDecoder<'a> {
    bytes: &'a [u8],
    bp: usize,
    a: u32,
    c: u32,
    ct: u32,
    ctxs: Vec<u8>,
}

impl<'a> MqDecoder<'a> {
    /// The decoder's registers, read position and contexts.
    pub closed spec fn state(&self) -> MqDecView {
        MqDecView { a: self.a, c: self.c, ct: self.ct, bp: self.bp as nat, ctxs: self.ctxs@ }
    }

    /// The codeword being read.
    pub closed spec fn data(&self) -> Seq<u8> {
        self.bytes@
    }

    /// The decoder is between two decisions.
    pub open spec fn wf(&self) -> bool {
        dec_ok(self.state(), self.data())
    }

    fn byte_at(&self, index: usize) -> (b: u8)
        ensures
            b == byte_at(self.bytes@, index as int),
    {
        if index < self.bytes.len() { self.bytes[index] } else { 0xff }
    }

    fn bytein(&mut self)
        requires
            old(self).bp <= old(self).bytes@.len(),
        ensures
            final(self).state() == dec_bytein(old(self).state(), old(self).bytes@),
            final(self).bytes == old(self).bytes,
    {
        let next = if self.bp < self.bytes.len() { self.byte_at(self.bp + 1) } else { 0xff };
        if self.byte_at(self.bp) == 0xff {
            if next > 0x8f {
                self.c = self.c.wrapping_add(0xff00);
                self.ct = 8;
            } else {
                self.bp = self.bp + 1;
                self.c = self.c.wrapping_add((next as u32) * 512);
                self.ct = 7;
            }
        } else {
            self.bp = self.bp + 1;
            self.c = self.c.wrapping_add((next as u32) * 256);
            self.ct = 8;
        }
    }

    /// A decoder started on `bytes`, with the contexts in their reset states.
    pub fn new(bytes: &'a [u8]) -> (d: Self)
        ensures
            d.wf(),
            d.data() == bytes@,
            d.state() == dec_initial(bytes@),
    {
        let c0: u32 = if bytes.len() == 0 { 0xff_0000 } else { (bytes[0] as u32) * 65536 };
        let mut d = MqDecoder { bytes, bp: 0, a: 0x8000, c: c0, ct: 0, ctxs: fresh_contexts() };
        d.bytein();
        d.c = d.c << 7u32;
        d.ct = if d.ct >= 7 { d.ct - 7 } else { 0 };
        proof { lemma_bytein_ok(MqDecView { a: 0x8000, c: c0, ct: 0, bp: 0, ctxs: initial_contexts() }, bytes@); }
        d
    }

    /// Sets context `ctx` to state `msb + 2 * prob`.
    pub fn set_state(&mut self, ctx: u8, msb: u8, prob: u8)
        requires
            old(self).wf(),
            (ctx as int) < MQC_NUMCTXS,
            msb + 2 * prob < 94,
        ensures
            final(self).wf(),
            final(self).data() == old(self).data(),
            final(self).state() == (MqDecView { ctxs: old(self).state().ctxs.update(ctx as int, (msb + 2 * prob) as u8),
                ..old(self).state() }),
    {
        self.ctxs.set(ctx as usize, msb + 2 * prob);
    }

    /// The state index of context `ctx`.
    pub fn state_index(&self, ctx: u8) -> (s: u8)
        requires
            self.wf(),
            (ctx as int) < MQC_NUMCTXS,
        ensures
            s == self.state().ctxs[ctx as int],
    {
        self.ctxs[ctx as usize]
    }

    fn renormd(&mut self)
        requires
            1 <= old(self).a <= 0xffff,
            old(self).ct <= 8,
            old(self).bp <= old(self).bytes@.len(),
        ensures
            final(self).state() == dec_renorm(old(self).state(), old(self).bytes@),
            final(self).bytes == old(self).bytes,
    {
        let ghost target = dec_renorm(self.state(), self.bytes@);
        while self.a < 0x8000
            invariant
                self.bytes == old(self).bytes,
                1 <= self.a <= 0xffff,
                self.ct <= 8,
                self.bp <= self.bytes@.len(),
                dec_renorm(self.state(), self.bytes@) == target,
            decreases 0x10000 - self.a,
        {
            if self.ct == 0 {
                proof { lemma_bytein_ok(self.state(), self.bytes@); }
                self.bytein();
            }
            self.a = self.a * 2;
            self.c = self.c << 1u32;
            self.ct = self.ct - 1;
        }
    }

    /// Decodes the next decision in context `ctx`.
    pub fn decode_with_ctx(&mut self, ctx: u8) -> (bit: u8)
        requires
            old(self).wf(),
            (ctx as int) < MQC_NUMCTXS,
        ensures
            final(self).wf(),
            final(self).data() == old(self).data(),
            (final(self).state(), bit) == dec_decision(old(self).state(), old(self).data(), ctx as int),
            bit <= 1,
    {
        proof {
            lemma_state_table(self.ctxs@[ctx as int] as int);
            lemma_dec_decision_ok(self.state(), self.bytes@, ctx as int);
        }
        let state = mq_state(self.ctxs[ctx as usize]);
        let q = state.qeval as u32;
        self.a = self.a - q;
        let other = 1 - state.mps;
        let bit = if (self.c >> 16u32) < q {
            let post = self.a;
            self.a = q;
            if post < q {
                self.ctxs.set(ctx as usize, state.nmps);
                state.mps
            } else {
                self.ctxs.set(ctx as usize, state.nlps);
                other
            }
        } else {
            let c0 = self.c;
            assert(c0 >> 16u32 >= q ==> c0 >= q * 65536) by (bit_vector)
                requires q <= 0xffff;
            self.c = self.c - q * 65536;
            if self.a < 0x8000 {
                if self.a < q {
                    self.ctxs.set(ctx as usize, state.nlps);
                    other
                } else {
                    self.ctxs.set(ctx as usize, state.nmps);
                    state.mps
                }
            } else {
                state.mps
            }
        };
        if self.a < 0x8000 {
            self.renormd();
        }
        bit
    }
}

} // verus!

use jp2lam::mq::{
    MqCoder, MqDecoder, MqState, mq_state, MQC_NUMCTXS, T1_CTXNO_AGG, T1_CTXNO_MAG, T1_CTXNO_SC, T1_CTXNO_UNI,
    T1_CTXNO_ZC,
};

// A plain register-level model of the MQ encoder with a fixed output buffer, used to hold the
// library's encoder to the same bytes.
struct RefMq {
    pub a: u32,
    pub c: u32,
    pub ct: u32,
    pub bp: usize,
    pub out: Vec<u8>,
    pub ctxs: [usize; MQC_NUMCTXS],
    pub curctx: usize,
}

impl RefMq {
    pub fn new() -> Self {
        // Buffer with a placeholder byte at index 0.
        let mut this = Self {
            a: 0x8000,
            c: 0,
            ct: 12,
            bp: 0,
            out: vec![0u8; 4096],
            ctxs: [0; MQC_NUMCTXS],
            curctx: 0,
        };
        // resetstates + the three special contexts
        for i in 0..MQC_NUMCTXS {
            this.ctxs[i] = 0;
        }
        this.setstate(T1_CTXNO_UNI, 0, 46);
        this.setstate(T1_CTXNO_AGG, 0, 3);
        this.setstate(T1_CTXNO_ZC, 0, 4);
        this
    }

    fn setstate(&mut self, ctx: u8, msb: u32, prob: i32) {
        self.ctxs[ctx as usize] = (msb + ((prob as u32) << 1)) as usize;
    }

    fn state(&self) -> MqState {
        mq_state(self.ctxs[self.curctx] as u8)
    }

    pub fn setcurctx(&mut self, ctx: u8) {
        self.curctx = ctx as usize;
    }

    fn byteout(&mut self) {
        let bp_val = self.out[self.bp];
        if bp_val == 0xff {
            self.bp += 1;
            self.out[self.bp] = (self.c >> 20) as u8;
            self.c &= 0xfffff;
            self.ct = 7;
        } else if (self.c & 0x8000000) == 0 {
            self.bp += 1;
            self.out[self.bp] = (self.c >> 19) as u8;
            self.c &= 0x7ffff;
            self.ct = 8;
        } else {
            self.out[self.bp] = bp_val.wrapping_add(1);
            if self.out[self.bp] == 0xff {
                self.c &= 0x7ffffff;
                self.bp += 1;
                self.out[self.bp] = (self.c >> 20) as u8;
                self.c &= 0xfffff;
                self.ct = 7;
            } else {
                self.bp += 1;
                self.out[self.bp] = (self.c >> 19) as u8;
                self.c &= 0x7ffff;
                self.ct = 8;
            }
        }
    }

    fn renorme(&mut self) {
        loop {
            self.a <<= 1;
            self.c <<= 1;
            self.ct = self.ct.wrapping_sub(1);
            if self.ct == 0 {
                self.byteout();
            }
            if self.a & 0x8000 != 0 {
                break;
            }
        }
    }

    fn codemps(&mut self) {
        let s = self.state();
        self.a = self.a.wrapping_sub(s.qeval as u32);
        if self.a & 0x8000 == 0 {
            if self.a < s.qeval as u32 {
                self.a = s.qeval as u32;
            } else {
                self.c = self.c.wrapping_add(s.qeval as u32);
            }
            self.ctxs[self.curctx] = s.nmps as usize;
            self.renorme();
        } else {
            self.c = self.c.wrapping_add(s.qeval as u32);
        }
    }

    fn codelps(&mut self) {
        let s = self.state();
        self.a = self.a.wrapping_sub(s.qeval as u32);
        if self.a < s.qeval as u32 {
            self.c = self.c.wrapping_add(s.qeval as u32);
        } else {
            self.a = s.qeval as u32;
        }
        self.ctxs[self.curctx] = s.nlps as usize;
        self.renorme();
    }

    pub fn encode(&mut self, d: u32) {
        if self.state().mps as u32 == d {
            self.codemps();
        } else {
            self.codelps();
        }
    }

    fn setbits(&mut self) {
        let tempc = self.c.wrapping_add(self.a);
        self.c |= 0xffff;
        if self.c >= tempc {
            self.c = self.c.wrapping_sub(0x8000);
        }
    }

    pub fn flush(&mut self) {
        self.setbits();
        self.c <<= self.ct;
        self.byteout();
        self.c <<= self.ct;
        self.byteout();
        // A final 0xff byte is not counted.
        if self.out[self.bp] != 0xff {
            self.bp += 1;
        }
    }

    #[allow(dead_code)]
    pub fn restart_init(&mut self) {
        self.a = 0x8000;
        self.c = 0;
        self.ct = 12;
        self.bp = 0;
        self.out.fill(0);
    }

    pub fn erterm(&mut self) {
        let mut k = (11_i32).wrapping_sub(self.ct as i32).wrapping_add(1);
        while k > 0 {
            self.c <<= self.ct;
            self.ct = 0;
            self.byteout();
            k -= self.ct as i32;
        }
        if self.out[self.bp] != 0xff {
            self.byteout();
        }
    }

    pub fn segmark(&mut self) {
        self.setcurctx(T1_CTXNO_UNI);
        for bit in [1u32, 0, 1, 0] {
            self.encode(bit);
        }
    }

    pub fn bytes(&self) -> &[u8] {
        // start = 1; numbytes = bp - start
        &self.out[1..self.bp]
    }
}


#[test]
fn reset_initializes_special_contexts() {
    let coder = MqCoder::new();
    assert_eq!(coder.state_index(T1_CTXNO_ZC), 8);
    assert_eq!(coder.state_index(T1_CTXNO_AGG), 6);
    assert_eq!(coder.state_index(T1_CTXNO_UNI), 92);
}

#[test]
fn encoding_is_deterministic() {
    let mut first = MqCoder::new();
    let mut second = MqCoder::new();
    for &bit in &[1, 0, 1, 1, 0, 0, 1, 0, 1, 1, 1, 0] {
        first.encode_with_ctx(T1_CTXNO_UNI, bit);
        second.encode_with_ctx(T1_CTXNO_UNI, bit);
    }
    let first = first.finish();
    let second = second.finish();
    assert!(!first.is_empty());
    assert_eq!(first, second);
}

// ------------- bit-exact cross-checks against the register model -------------

fn xorshift(s: &mut u64) -> u64 {
    let mut x = *s;
    x ^= x << 13;
    x ^= x >> 7;
    x ^= x << 17;
    *s = x;
    x
}

fn run_bits(bits: &[(u8, u8)]) -> (Vec<u8>, Vec<u8>) {
    // bits is a slice of (ctx, bit) pairs.
    let mut coder = MqCoder::new();
    let mut reference = RefMq::new();
    for &(ctx, bit) in bits {
        coder.encode_with_ctx(ctx, bit);
        reference.setcurctx(ctx);
        reference.encode(bit as u32);
    }
    reference.flush();
    let produced = coder.finish();
    let expected = reference.bytes().to_vec();
    (produced, expected)
}

fn roundtrip_bits(bits: &[(u8, u8)]) {
    let mut coder = MqCoder::new();
    for &(ctx, bit) in bits {
        coder.encode_with_ctx(ctx, bit);
    }
    let bytes = coder.finish();
    let mut decoder = MqDecoder::new(&bytes);
    for (idx, &(ctx, expected)) in bits.iter().enumerate() {
        let actual = decoder.decode_with_ctx(ctx);
        assert_eq!(actual, expected, "decoded bit mismatch at symbol {idx}");
    }
}

#[test]
fn matches_reference_uni_all_zero() {
    let bits: Vec<(u8, u8)> = (0..256).map(|_| (T1_CTXNO_UNI, 0)).collect();
    let (a, b) = run_bits(&bits);
    assert_eq!(a, b, "UNI all-zero");
}

#[test]
fn matches_reference_uni_all_one() {
    let bits: Vec<(u8, u8)> = (0..256).map(|_| (T1_CTXNO_UNI, 1)).collect();
    let (a, b) = run_bits(&bits);
    assert_eq!(a, b, "UNI all-one");
}

#[test]
fn matches_reference_alternating() {
    let bits: Vec<(u8, u8)> = (0..512).map(|i| (T1_CTXNO_AGG, (i & 1) as u8)).collect();
    let (a, b) = run_bits(&bits);
    assert_eq!(a, b, "alternating bits on AGG");
}

#[test]
fn matches_reference_mixed_contexts() {
    let ctxs = [
        T1_CTXNO_ZC,
        T1_CTXNO_SC,
        T1_CTXNO_MAG,
        T1_CTXNO_AGG,
        T1_CTXNO_UNI,
    ];
    let mut bits = Vec::new();
    for i in 0..400u32 {
        let ctx = ctxs[(i as usize) % ctxs.len()];
        let bit = ((i.wrapping_mul(2654435761) >> 30) & 1) as u8;
        bits.push((ctx, bit));
    }
    let (a, b) = run_bits(&bits);
    assert_eq!(a, b, "mixed contexts PRNG-ish");
}

#[test]
fn matches_reference_randomized() {
    let ctxs = [
        T1_CTXNO_ZC,
        T1_CTXNO_SC,
        T1_CTXNO_MAG,
        T1_CTXNO_AGG,
        T1_CTXNO_UNI,
    ];
    for seed_base in 0..32u64 {
        let mut s = seed_base.wrapping_add(0x9E3779B97F4A7C15);
        if s == 0 {
            s = 1;
        }
        let n = 100 + (xorshift(&mut s) % 1500) as usize;
        let mut bits = Vec::with_capacity(n);
        for _ in 0..n {
            let r = xorshift(&mut s);
            let ctx = ctxs[(r as usize) % ctxs.len()];
            let bit = ((r >> 32) & 1) as u8;
            bits.push((ctx, bit));
        }
        let (a, b) = run_bits(&bits);
        assert_eq!(a, b, "randomized seed {}", seed_base);
    }
}

#[test]
fn decoder_roundtrips_mixed_contexts() {
    let ctxs = [
        T1_CTXNO_ZC,
        T1_CTXNO_SC,
        T1_CTXNO_MAG,
        T1_CTXNO_AGG,
        T1_CTXNO_UNI,
    ];
    let mut bits = Vec::new();
    for i in 0..800u32 {
        let ctx = ctxs[((i * 7) as usize) % ctxs.len()];
        let bit = ((i.wrapping_mul(1103515245).wrapping_add(12345) >> 29) & 1) as u8;
        bits.push((ctx, bit));
    }
    roundtrip_bits(&bits);
}

#[test]
fn decoder_initializes_special_contexts_like_encoder() {
    let decoder = MqDecoder::new(&[]);
    assert_eq!(decoder.state_index(T1_CTXNO_ZC), 8);
    assert_eq!(decoder.state_index(T1_CTXNO_AGG), 6);
    assert_eq!(decoder.state_index(T1_CTXNO_UNI), 92);
}

#[test]
fn matches_reference_skewed_mps() {
    // Mostly MPS (bit=0), occasional LPS — exercises the MPS-heavy path
    // where 0xff carry/overflow cases are most common.
    let mut s: u64 = 0xDEAD_BEEF_CAFE_BABE;
    let mut bits = Vec::new();
    for _ in 0..5000 {
        let r = xorshift(&mut s);
        let bit = if (r & 0xff) < 8 { 1 } else { 0 };
        bits.push((T1_CTXNO_AGG, bit));
    }
    let (a, b) = run_bits(&bits);
    assert_eq!(a, b, "skewed MPS stream");
}

#[test]
fn lps_and_mps_advance_context_state() {
    let mut coder = MqCoder::new();
    let original = coder.state_index(T1_CTXNO_AGG);
    coder.encode_with_ctx(T1_CTXNO_AGG, 1);
    let after_lps = coder.state_index(T1_CTXNO_AGG);
    coder.encode_with_ctx(T1_CTXNO_AGG, 0);
    let after_mps = coder.state_index(T1_CTXNO_AGG);
    assert_ne!(after_lps, original);
    assert!((after_mps as usize) < 94);
}

#[test]
fn flush_and_restart_preserves_context_state() {
    let mut coder = MqCoder::new();
    coder.encode_with_ctx(T1_CTXNO_AGG, 1);
    let state_before = coder.state_index(T1_CTXNO_AGG);
    let bytes = coder.flush_and_restart();
    assert!(!bytes.is_empty());
    assert_eq!(coder.state_index(T1_CTXNO_AGG), state_before);
    let bytes2 = coder.flush_and_restart();
    assert!(bytes2.is_empty() || !bytes2.is_empty());
}

#[test]
fn segmark_matches_reference() {
    let mut coder = MqCoder::new();
    let mut reference = RefMq::new();
    coder.segmark_encode();
    reference.segmark();
    reference.flush();
    assert_eq!(coder.finish(), reference.bytes().to_vec());
}

#[test]
fn erterm_matches_reference_after_payload() {
    let mut coder = MqCoder::new();
    let mut reference = RefMq::new();
    let bits = [
        (T1_CTXNO_ZC, 1u8),
        (T1_CTXNO_AGG, 0),
        (T1_CTXNO_UNI, 1),
        (T1_CTXNO_AGG, 1),
        (T1_CTXNO_UNI, 0),
        (T1_CTXNO_ZC, 0),
        (T1_CTXNO_UNI, 1),
    ];
    for (ctx, bit) in bits {
        coder.encode_with_ctx(ctx, bit);
        reference.setcurctx(ctx);
        reference.encode(bit as u32);
    }
    let actual = coder.erterm_flush();
    reference.erterm();
    assert_eq!(actual, reference.bytes().to_vec());
}

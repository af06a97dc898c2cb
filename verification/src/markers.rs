//! The main-header marker segments the encoder writes: SIZ, COD and QCD (A.5.1, A.6.1, A.6.4).
use vstd::prelude::*;
use crate::bytes::{be16, be32, lemma_u16_be_roundtrip, lemma_u32_be_roundtrip, push_u16, push_u32, u16_be, u32_be};
use crate::decode_markers::{MARKER_COD, MARKER_QCD, MARKER_SIZ, ProgressionOrder, QuantizationStyle, WaveletTransform};
use crate::decode_markers::{ComponentSiz, SizView, component_siz_at, seg_body, seg_framed, seg_marker, siz_body_ok, siz_view};
use crate::decode_markers::{CodView, CodeBlockStyle, QcdView, QuantizationStep, bit_of, cb_dim, cod_body_ok, cod_view, pow2_int, qcd_body_ok, qcd_view};
use crate::error::{Result, encode_failed};
use crate::plan::{EncodingPlan, PlanComponent};

verus! {

/// The Ssiz byte of a component: the sign bit and the precision less one, the precision capped
/// at 38 bits.
pub open spec fn ssiz_byte(c: PlanComponent) -> u8 {
    let p: int = if c.precision > 38 { 38 } else { c.precision as int };
    ((if c.signed { 128int } else { 0int }) + (if p == 0 { 0 } else { p - 1 })) as u8
}

/// The three SIZ bytes of each component, one component after the other.
pub open spec fn siz_component_bytes(cs: Seq<PlanComponent>) -> Seq<u8> {
    Seq::new(3 * cs.len(), |i: int| {
        let c = cs[i / 3];
        if i % 3 == 0 { ssiz_byte(c) } else if i % 3 == 1 { c.dx as u8 } else { c.dy as u8 }
    })
}

/// The SIZ segment of a plan, or `None` when its length or a sampling factor does not fit.
pub open spec fn siz_spec(plan: EncodingPlan) -> Option<Seq<u8>> {
    let len = 38 + 3 * (plan.component_count as int);
    if len > 0xffff {
        None
    } else if exists|k: int| 0 <= k < plan.components@.len()
        && ((#[trigger] plan.components@[k]).dx > 255 || plan.components@[k].dy > 255) {
        None
    } else {
        Some(u16_be(MARKER_SIZ) + u16_be(len as u16) + u16_be(0) + u32_be(plan.width) + u32_be(plan.height)
            + u32_be(0) + u32_be(0) + u32_be(plan.width) + u32_be(plan.height) + u32_be(0) + u32_be(0)
            + u16_be(plan.component_count) + siz_component_bytes(plan.components@))
    }
}

/// Writes the SIZ segment: one full-image tile at the origin, and each component's sign,
/// precision and sampling.
pub fn encode_siz(plan: &EncodingPlan) -> (r: Result<Vec<u8>>)
    ensures
        r is Ok <==> siz_spec(*plan) is Some,
        r matches Ok(v) ==> v@ == siz_spec(*plan).unwrap(),
        r matches Err(e) ==> e is EncodeFailed,
{
    let count = plan.component_count as u32;
    if 38 + 3 * count > 0xffff {
        return Err(encode_failed("SIZ length exceeds u16"));
    }
    let length = (38 + 3 * count) as u16;
    let mut out: Vec<u8> = Vec::new();
    push_u16(&mut out, MARKER_SIZ);
    push_u16(&mut out, length);
    push_u16(&mut out, 0);
    push_u32(&mut out, plan.width);
    push_u32(&mut out, plan.height);
    push_u32(&mut out, 0);
    push_u32(&mut out, 0);
    push_u32(&mut out, plan.width);
    push_u32(&mut out, plan.height);
    push_u32(&mut out, 0);
    push_u32(&mut out, 0);
    push_u16(&mut out, plan.component_count);
    let ghost head = out@;
    let n = plan.components.len();
    let mut k: usize = 0;
    while k < n
        invariant
            n == plan.components@.len(),
            k <= n,
            out@ == head + siz_component_bytes(plan.components@.subrange(0, k as int)),
            forall|j: int| 0 <= j < k ==> (#[trigger] plan.components@[j]).dx <= 255 && plan.components@[j].dy <= 255,
        decreases n - k,
    {
        let c = plan.components[k];
        if c.dx > 255 || c.dy > 255 {
            return Err(encode_failed("component sampling exceeds SIZ range"));
        }
        let p: u32 = if c.precision > 38 { 38 } else { c.precision };
        let b: u8 = (if c.signed { 128u8 } else { 0u8 }) + (if p == 0 { 0u8 } else { (p - 1) as u8 });
        out.push(b);
        out.push(c.dx as u8);
        out.push(c.dy as u8);
        proof {
            let prev = siz_component_bytes(plan.components@.subrange(0, k as int));
            let next = siz_component_bytes(plan.components@.subrange(0, k + 1));
            assert(next =~= prev + seq![ssiz_byte(c), c.dx as u8, c.dy as u8]) by {
                assert forall|i: int| 0 <= i < next.len() implies next[i] == (prev + seq![ssiz_byte(c), c.dx as u8, c.dy as u8])[i] by {
                    if i < 3 * k {
                        assert(i / 3 < k) by (nonlinear_arith) requires 0 <= i < 3 * k;
                    } else {
                        assert(i / 3 == k) by (nonlinear_arith) requires 3 * k <= i < 3 * k + 3;
                        assert(i % 3 == i - 3 * k) by (nonlinear_arith) requires 3 * k <= i < 3 * k + 3;
                    }
                }
            }
        }
        k = k + 1;
    }
    assert(plan.components@.subrange(0, n as int) =~= plan.components@);
    Ok(out)
}

/// The COD progression byte.
pub open spec fn progression_byte(p: ProgressionOrder) -> u8 {
    match p {
        ProgressionOrder::Lrcp => 0,
        ProgressionOrder::Rlcp => 1,
        ProgressionOrder::Rpcl => 2,
        ProgressionOrder::Pcrl => 3,
        ProgressionOrder::Cprl => 4,
    }
}

/// The number of trailing zero bits of `n` (32 for zero).
pub open spec fn trailing_zeros(n: u32) -> nat
    decreases n,
{
    if n == 0 { 32 } else if n % 2 == 1 { 0 } else { 1 + trailing_zeros(n / 2) }
}

/// The COD code-block size exponent of a side length: its trailing zero bits less two.
pub open spec fn code_block_exponent_spec(size: u32) -> u8 {
    let t = trailing_zeros(size);
    (if t >= 2 { t - 2 } else { 0 }) as u8
}

proof fn lemma_trailing_zeros_below(m: u32, k: nat)
    requires
        m != 0,
        m < crate::decode_markers::pow2_int(k),
    ensures
        trailing_zeros(m) < k,
    decreases k,
{
    if m % 2 == 0 {
        assert(k >= 1) by {
            if k == 0 { assert(crate::decode_markers::pow2_int(0) == 1); }
        }
        assert(crate::decode_markers::pow2_int(k) == 2 * crate::decode_markers::pow2_int((k - 1) as nat));
        lemma_trailing_zeros_below(m / 2, (k - 1) as nat);
    } else {
        assert(k >= 1) by {
            if k == 0 { assert(crate::decode_markers::pow2_int(0) == 1); }
        }
    }
}

/// The COD code-block size exponent of a side length.
fn code_block_exponent(size: u32) -> (e: u8)
    ensures
        e == code_block_exponent_spec(size),
{
    if size == 0 {
        return 30;
    }
    let mut n: u32 = size;
    let mut t: u32 = 0;
    proof {
        assert(crate::decode_markers::pow2_int(32) == 0x1_0000_0000) by {
            reveal_with_fuel(crate::decode_markers::pow2_int, 33);
        }
        lemma_trailing_zeros_below(size, 32);
    }
    while n % 2 == 0
        invariant
            n != 0,
            t + trailing_zeros(n) == trailing_zeros(size),
            trailing_zeros(size) < 32,
        decreases n,
    {
        n = n / 2;
        t = t + 1;
    }
    if t >= 2 { (t - 2) as u8 } else { 0 }
}

/// The COD segment of a plan.
pub open spec fn cod_spec(plan: EncodingPlan) -> Seq<u8> {
    u16_be(MARKER_COD) + u16_be(12) + seq![0u8, progression_byte(plan.progression_order)]
        + u16_be(plan.layers)
        + seq![
            if plan.use_mct { 1u8 } else { 0u8 },
            plan.decomposition_levels,
            code_block_exponent_spec(plan.code_block_size.width),
            code_block_exponent_spec(plan.code_block_size.height),
            0u8,
            if plan.transform is Reversible53 { 1u8 } else { 0u8 },
        ]
}

/// Writes the COD segment: default coding style, the progression, the layer count, the
/// multiple-component transform, the decomposition levels, the code-block size and the wavelet.
pub fn encode_cod(plan: &EncodingPlan) -> (v: Vec<u8>)
    ensures
        v@ == cod_spec(*plan),
{
    let progression: u8 = match plan.progression_order {
        ProgressionOrder::Lrcp => 0,
        ProgressionOrder::Rlcp => 1,
        ProgressionOrder::Rpcl => 2,
        ProgressionOrder::Pcrl => 3,
        ProgressionOrder::Cprl => 4,
    };
    let transform: u8 = match plan.transform {
        WaveletTransform::Reversible53 => 1,
        WaveletTransform::Irreversible97 => 0,
    };
    let mut out: Vec<u8> = Vec::new();
    push_u16(&mut out, MARKER_COD);
    push_u16(&mut out, 12);
    out.push(0);
    out.push(progression);
    push_u16(&mut out, plan.layers);
    out.push(if plan.use_mct { 1 } else { 0 });
    out.push(plan.decomposition_levels);
    out.push(code_block_exponent(plan.code_block_size.width));
    out.push(code_block_exponent(plan.code_block_size.height));
    out.push(0);
    out.push(transform);
    assert(out@ =~= cod_spec(*plan));
    out
}

/// The QCD bytes of each subband for reversible coding: the exponent shifted into the top five
/// bits.
pub open spec fn qcd_reversible_bytes(q: Seq<crate::plan::SubbandQuant>) -> Seq<u8> {
    Seq::new(q.len(), |i: int| ((q[i].exponent as int * 8) % 256) as u8)
}

/// The QCD bytes of each subband for scalar-expounded quantization: exponent and mantissa in a
/// big-endian 16-bit word.
pub open spec fn qcd_expounded_bytes(q: Seq<crate::plan::SubbandQuant>) -> Seq<u8> {
    Seq::new(2 * q.len(), |i: int| {
        let s = q[i / 2];
        let w = (s.exponent as int * 2048) % 65536 + (s.mantissa as int) % 2048;
        if i % 2 == 0 { (w / 256) as u8 } else { (w % 256) as u8 }
    })
}

/// The QCD segment of a plan, or `None` when its length does not fit or its style is not one
/// the encoder writes.
pub open spec fn qcd_spec(plan: EncodingPlan) -> Option<Seq<u8>> {
    let n = plan.subband_quants@.len();
    let g = ((plan.guard_bits as int * 32) % 256) as u8;
    match plan.quantization_style {
        QuantizationStyle::NoQuantization => if 3 + n > 0xffff { None } else {
            Some(u16_be(MARKER_QCD) + u16_be((3 + n) as u16) + seq![g] + qcd_reversible_bytes(plan.subband_quants@))
        },
        QuantizationStyle::ScalarExpounded => if 3 + 2 * n > 0xffff { None } else {
            Some(u16_be(MARKER_QCD) + u16_be((3 + 2 * n) as u16) + seq![(g as int + 2) as u8]
                + qcd_expounded_bytes(plan.subband_quants@))
        },
        QuantizationStyle::ScalarDerived => None,
    }
}

/// Writes the QCD segment: the guard bits and the style, then each subband's exponent (and
/// mantissa, for scalar-expounded quantization).
pub fn encode_qcd(plan: &EncodingPlan) -> (r: Result<Vec<u8>>)
    ensures
        r is Ok <==> qcd_spec(*plan) is Some,
        r matches Ok(v) ==> v@ == qcd_spec(*plan).unwrap(),
        r matches Err(e) ==> e is EncodeFailed,
{
    let n = plan.subband_quants.len();
    let g: u8 = ((plan.guard_bits as u32 * 32) % 256) as u8;
    match plan.quantization_style {
        QuantizationStyle::NoQuantization => {
            if n > 0xffff - 3 {
                return Err(encode_failed("QCD length exceeds u16"));
            }
            let mut out: Vec<u8> = Vec::new();
            push_u16(&mut out, MARKER_QCD);
            push_u16(&mut out, (3 + n) as u16);
            out.push(g);
            let ghost head = out@;
            let mut i: usize = 0;
            while i < n
                invariant
                    n == plan.subband_quants@.len(),
                    i <= n,
                    out@ == head + qcd_reversible_bytes(plan.subband_quants@.subrange(0, i as int)),
                decreases n - i,
            {
                let e = plan.subband_quants[i].exponent;
                out.push(((e as u32 * 8) % 256) as u8);
                proof {
                    assert(qcd_reversible_bytes(plan.subband_quants@.subrange(0, i + 1)) =~=
                        qcd_reversible_bytes(plan.subband_quants@.subrange(0, i as int)) + seq![((e as int * 8) % 256) as u8]);
                }
                i = i + 1;
            }
            assert(plan.subband_quants@.subrange(0, n as int) =~= plan.subband_quants@);
            Ok(out)
        },
        QuantizationStyle::ScalarExpounded => {
            if n > (0xffff - 3) / 2 {
                return Err(encode_failed("QCD length exceeds u16"));
            }
            let mut out: Vec<u8> = Vec::new();
            push_u16(&mut out, MARKER_QCD);
            push_u16(&mut out, (3 + 2 * n) as u16);
            out.push(g + 2);
            let ghost head = out@;
            let mut i: usize = 0;
            while i < n
                invariant
                    n == plan.subband_quants@.len(),
                    i <= n,
                    out@ == head + qcd_expounded_bytes(plan.subband_quants@.subrange(0, i as int)),
                decreases n - i,
            {
                let s = plan.subband_quants[i];
                let w: u32 = (s.exponent as u32 * 2048) % 65536 + (s.mantissa as u32) % 2048;
                out.push((w / 256) as u8);
                out.push((w % 256) as u8);
                proof {
                    let prev = qcd_expounded_bytes(plan.subband_quants@.subrange(0, i as int));
                    let next = qcd_expounded_bytes(plan.subband_quants@.subrange(0, i + 1));
                    assert(next =~= prev + seq![(w / 256) as u8, (w % 256) as u8]) by {
                        assert forall|j: int| 0 <= j < next.len() implies next[j] == (prev + seq![(w / 256) as u8, (w % 256) as u8])[j] by {
                            if j < 2 * i {
                                assert(j / 2 < i) by (nonlinear_arith) requires 0 <= j < 2 * i;
                            } else {
                                assert(j / 2 == i) by (nonlinear_arith) requires 2 * i <= j < 2 * i + 2;
                                assert(j % 2 == j - 2 * i) by (nonlinear_arith) requires 2 * i <= j < 2 * i + 2;
                            }
                        }
                    }
                }
                i = i + 1;
            }
            assert(plan.subband_quants@.subrange(0, n as int) =~= plan.subband_quants@);
            Ok(out)
        },
        QuantizationStyle::ScalarDerived => Err(encode_failed("scalar-derived quantization is not written by the encoder")),
    }
}

/// Writes the main-header segments of a plan: SIZ, COD and QCD.
pub fn build_main_header_segments(plan: &EncodingPlan) -> (r: Result<Vec<Vec<u8>>>)
    ensures
        r is Ok <==> siz_spec(*plan) is Some && qcd_spec(*plan) is Some,
        r matches Ok(v) ==> v@.len() == 3 && v@[0]@ == siz_spec(*plan).unwrap() && v@[1]@ == cod_spec(*plan)
            && v@[2]@ == qcd_spec(*plan).unwrap(),
        r matches Err(e) ==> e is EncodeFailed,
{
    let siz = encode_siz(plan)?;
    let cod = encode_cod(plan);
    let qcd = encode_qcd(plan)?;
    let mut v: Vec<Vec<u8>> = Vec::new();
    v.push(siz);
    v.push(cod);
    v.push(qcd);
    Ok(v)
}

// ----------------------------------------------------------------------------
// What the parser reads back
// ----------------------------------------------------------------------------

proof fn lemma_be16_in(s: Seq<u8>, off: int, v: u16)
    requires
        0 <= off,
        off + 2 <= s.len(),
        s.subrange(off, off + 2) == u16_be(v),
    ensures
        be16(s, off) == v,
{
    lemma_u16_be_roundtrip(v);
    assert(s[off] == s.subrange(off, off + 2)[0]);
    assert(s[off + 1] == s.subrange(off, off + 2)[1]);
}

proof fn lemma_be32_in(s: Seq<u8>, off: int, v: u32)
    requires
        0 <= off,
        off + 4 <= s.len(),
        s.subrange(off, off + 4) == u32_be(v),
    ensures
        be32(s, off) == v,
{
    lemma_u32_be_roundtrip(v);
    assert(s[off] == s.subrange(off, off + 4)[0]);
    assert(s[off + 1] == s.subrange(off, off + 4)[1]);
    assert(s[off + 2] == s.subrange(off, off + 4)[2]);
    assert(s[off + 3] == s.subrange(off, off + 4)[3]);
}

/// The precision that a component's Ssiz byte signals: its own, capped at 38 bits, and at least 1.
pub open spec fn siz_precision(p: u32) -> u8 {
    if p == 0 { 1 } else if p > 38 { 38 } else { p as u8 }
}

/// What the decoder reads from the SIZ segment that `encode_siz` writes for `plan`.
pub open spec fn written_siz(plan: EncodingPlan) -> SizView {
    SizView {
        rsiz: 0,
        width: plan.width,
        height: plan.height,
        x_origin: 0,
        y_origin: 0,
        tile_width: plan.width,
        tile_height: plan.height,
        tile_x_origin: 0,
        tile_y_origin: 0,
        components: Seq::new(plan.components@.len(), |i: int| ComponentSiz {
            precision: siz_precision(plan.components@[i].precision),
            signed: plan.components@[i].signed,
            dx: plan.components@[i].dx as u8,
            dy: plan.components@[i].dy as u8,
        }),
    }
}

/// The SIZ fields that precede the per-component bytes.
spec fn siz_fixed_fields(plan: EncodingPlan) -> Seq<u8> {
    u16_be(0) + u32_be(plan.width) + u32_be(plan.height) + u32_be(0) + u32_be(0) + u32_be(plan.width)
        + u32_be(plan.height) + u32_be(0) + u32_be(0) + u16_be(plan.component_count)
}

proof fn lemma_siz_fixed_fields(plan: EncodingPlan, b: Seq<u8>)
    requires
        b.len() >= 36,
        forall|k: int| 0 <= k < 36 ==> #[trigger] b[k] == siz_fixed_fields(plan)[k],
    ensures
        be16(b, 0) == 0,
        be32(b, 2) == plan.width,
        be32(b, 6) == plan.height,
        be32(b, 10) == 0,
        be32(b, 14) == 0,
        be32(b, 18) == plan.width,
        be32(b, 22) == plan.height,
        be32(b, 26) == 0,
        be32(b, 30) == 0,
        be16(b, 34) == plan.component_count,
{
    assert(b.subrange(0, 2) =~= u16_be(0));
    lemma_be16_in(b, 0, 0);
    assert(b.subrange(2, 6) =~= u32_be(plan.width));
    lemma_be32_in(b, 2, plan.width);
    assert(b.subrange(6, 10) =~= u32_be(plan.height));
    lemma_be32_in(b, 6, plan.height);
    assert(b.subrange(10, 14) =~= u32_be(0));
    lemma_be32_in(b, 10, 0);
    assert(b.subrange(14, 18) =~= u32_be(0));
    lemma_be32_in(b, 14, 0);
    assert(b.subrange(18, 22) =~= u32_be(plan.width));
    lemma_be32_in(b, 18, plan.width);
    assert(b.subrange(22, 26) =~= u32_be(plan.height));
    lemma_be32_in(b, 22, plan.height);
    assert(b.subrange(26, 30) =~= u32_be(0));
    lemma_be32_in(b, 26, 0);
    assert(b.subrange(30, 34) =~= u32_be(0));
    lemma_be32_in(b, 30, 0);
    assert(b.subrange(34, 36) =~= u16_be(plan.component_count));
    lemma_be16_in(b, 34, plan.component_count);
}

proof fn lemma_siz_components(plan: EncodingPlan, body: Seq<u8>)
    requires
        body.len() == 36 + 3 * plan.components@.len(),
        forall|j: int| 0 <= j < 3 * plan.components@.len() ==> #[trigger] body[36 + j] == siz_component_bytes(plan.components@)[j],
        forall|k: int| 0 <= k < plan.components@.len() ==> (#[trigger] plan.components@[k]).dx <= 255 && plan.components@[k].dy <= 255,
    ensures
        forall|i: int| 0 <= i < plan.components@.len() ==> #[trigger] component_siz_at(body, 36 + 3 * i) == written_siz(plan).components[i],
{
    let cs = plan.components@;
    let comps = siz_component_bytes(cs);
    let w = written_siz(plan);
    assert forall|i: int| 0 <= i < cs.len() implies #[trigger] component_siz_at(body, 36 + 3 * i) == w.components[i] by {
        let c = cs[i];
        assert(body[36 + 3 * i] == comps[3 * i]);
        assert(body[36 + (3 * i + 1)] == comps[3 * i + 1]);
        assert(body[36 + (3 * i + 2)] == comps[3 * i + 2]);
        assert((3 * i) / 3 == i && (3 * i) % 3 == 0);
        assert((3 * i + 1) / 3 == i && (3 * i + 1) % 3 == 1);
        assert((3 * i + 2) / 3 == i && (3 * i + 2) % 3 == 2);
        assert(c.dx <= 255 && c.dy <= 255);
    }
}

/// The SIZ segment that `encode_siz` writes is one the decoder accepts, and it reads back the
/// image size, a single tile covering the image at the origin, and each component's sign,
/// precision and sampling.
pub proof fn lemma_siz_reads_back(plan: EncodingPlan)
    requires
        siz_spec(plan) is Some,
        plan.component_count == plan.components@.len(),
        plan.components@.len() >= 1,
    ensures
        seg_marker(siz_spec(plan).unwrap()) == MARKER_SIZ,
        seg_framed(siz_spec(plan).unwrap()),
        siz_body_ok(seg_body(siz_spec(plan).unwrap())),
        siz_view(seg_body(siz_spec(plan).unwrap())) == written_siz(plan),
{
    let seg = siz_spec(plan).unwrap();
    let cs = plan.components@;
    let n = cs.len();
    let len = (38 + 3 * n) as u16;
    let fixed = siz_fixed_fields(plan);
    let comps = siz_component_bytes(cs);
    assert(seg =~= u16_be(MARKER_SIZ) + u16_be(len) + (fixed + comps));
    assert(seg.subrange(0, 2) =~= u16_be(MARKER_SIZ));
    lemma_be16_in(seg, 0, MARKER_SIZ);
    assert(seg.subrange(2, 4) =~= u16_be(len));
    lemma_be16_in(seg, 2, len);
    let body = seg_body(seg);
    assert(body =~= fixed + comps);
    assert forall|k: int| 0 <= k < 36 implies #[trigger] body[k] == fixed[k] by {}
    assert forall|j: int| 0 <= j < 3 * n implies #[trigger] body[36 + j] == comps[j] by {}
    lemma_siz_fixed_fields(plan, body);
    lemma_siz_components(plan, body);
    let w = written_siz(plan);
    let v = siz_view(body);
    assert(v.components =~= w.components);
}

/// A code-block side that COD can signal: a power of two from 4 to 1024.
pub open spec fn is_code_block_side(s: u32) -> bool {
    s == 4 || s == 8 || s == 16 || s == 32 || s == 64 || s == 128 || s == 256 || s == 512 || s == 1024
}

proof fn lemma_code_block_side_reads_back(s: u32)
    requires
        is_code_block_side(s),
    ensures
        code_block_exponent_spec(s) <= 8,
        cb_dim(code_block_exponent_spec(s)) == s,
{
    reveal_with_fuel(trailing_zeros, 12);
}

/// What the decoder reads from the COD segment that `encode_cod` writes for `plan`.
pub open spec fn written_cod(plan: EncodingPlan) -> CodView {
    CodView {
        progression_order: plan.progression_order,
        layers: plan.layers,
        use_mct: plan.use_mct,
        decomposition_levels: plan.decomposition_levels,
        code_block_width: plan.code_block_size.width,
        code_block_height: plan.code_block_size.height,
        code_block_style: CodeBlockStyle {
            bypass: false,
            reset_contexts: false,
            terminate_each_pass: false,
            vertical_causal: false,
            predictable_termination: false,
            segmentation_symbols: false,
        },
        transform: plan.transform,
        uses_precincts: false,
        sop_markers: false,
        eph_markers: false,
        precinct_sizes: Seq::empty(),
    }
}

/// The COD segment that `encode_cod` writes is one the decoder accepts, and it reads back the
/// progression, the layer count, the component transform, the decomposition levels, the
/// code-block size and the wavelet, with the default code-block style, no precincts and no
/// SOP or EPH markers.
pub proof fn lemma_cod_reads_back(plan: EncodingPlan)
    requires
        is_code_block_side(plan.code_block_size.width),
        is_code_block_side(plan.code_block_size.height),
    ensures
        seg_marker(cod_spec(plan)) == MARKER_COD,
        seg_framed(cod_spec(plan)),
        cod_body_ok(seg_body(cod_spec(plan))),
        cod_view(seg_body(cod_spec(plan))) == written_cod(plan),
{
    let seg = cod_spec(plan);
    assert(seg.subrange(0, 2) =~= u16_be(MARKER_COD));
    lemma_be16_in(seg, 0, MARKER_COD);
    assert(seg.subrange(2, 4) =~= u16_be(12));
    lemma_be16_in(seg, 2, 12);
    let body = seg_body(seg);
    assert(body.subrange(2, 4) =~= u16_be(plan.layers));
    lemma_be16_in(body, 2, plan.layers);
    lemma_code_block_side_reads_back(plan.code_block_size.width);
    lemma_code_block_side_reads_back(plan.code_block_size.height);
    reveal_with_fuel(pow2_int, 6);
    assert(!bit_of(0, 0) && !bit_of(0, 1) && !bit_of(0, 2) && !bit_of(0, 3) && !bit_of(0, 4) && !bit_of(0, 5));
    let v = cod_view(body);
    assert(v.precinct_sizes =~= Seq::<crate::decode_markers::PrecinctSize>::empty());
    assert(v.progression_order == plan.progression_order);
    assert(v.transform == plan.transform);
    assert(v =~= written_cod(plan));
}

/// What the decoder reads from the QCD segment that `encode_qcd` writes for `plan`: the style,
/// the guard bits and each subband's exponent, with its mantissa under scalar-expounded
/// quantization.
pub open spec fn written_qcd(plan: EncodingPlan) -> QcdView {
    let q = plan.subband_quants@;
    QcdView {
        style: plan.quantization_style,
        guard_bits: plan.guard_bits,
        steps: Seq::new(q.len(), |i: int| QuantizationStep {
            exponent: q[i].exponent,
            mantissa: if plan.quantization_style is NoQuantization { 0 } else { q[i].mantissa },
        }),
    }
}

proof fn lemma_qcd_reversible_steps(plan: EncodingPlan, body: Seq<u8>)
    requires
        plan.quantization_style is NoQuantization,
        body.len() == 1 + plan.subband_quants@.len(),
        forall|j: int| 0 <= j < plan.subband_quants@.len() ==> #[trigger] body[1 + j] == qcd_reversible_bytes(plan.subband_quants@)[j],
        forall|k: int| 0 <= k < plan.subband_quants@.len() ==> (#[trigger] plan.subband_quants@[k]).exponent < 32,
        body[0] % 32 == 0,
    ensures
        qcd_view(body).steps == written_qcd(plan).steps,
{
    let q = plan.subband_quants@;
    let steps = qcd_view(body).steps;
    assert forall|i: int| 0 <= i < q.len() implies #[trigger] steps[i] == written_qcd(plan).steps[i] by {
        assert(body[1 + i] == qcd_reversible_bytes(q)[i]);
        let e = q[i].exponent;
        assert(((e as int * 8) % 256) / 8 == e);
    }
    assert(steps =~= written_qcd(plan).steps);
}

proof fn lemma_qcd_expounded_steps(plan: EncodingPlan, body: Seq<u8>)
    requires
        plan.quantization_style is ScalarExpounded,
        body.len() == 1 + 2 * plan.subband_quants@.len(),
        forall|j: int| 0 <= j < 2 * plan.subband_quants@.len() ==> #[trigger] body[1 + j] == qcd_expounded_bytes(plan.subband_quants@)[j],
        forall|k: int| 0 <= k < plan.subband_quants@.len() ==> (#[trigger] plan.subband_quants@[k]).exponent < 32
            && plan.subband_quants@[k].mantissa < 2048,
        body[0] % 32 == 2,
    ensures
        qcd_view(body).steps == written_qcd(plan).steps,
{
    let q = plan.subband_quants@;
    let steps = qcd_view(body).steps;
    assert forall|i: int| 0 <= i < q.len() implies #[trigger] steps[i] == written_qcd(plan).steps[i] by {
        assert(body[1 + 2 * i] == qcd_expounded_bytes(q)[2 * i]);
        assert(body[1 + (2 * i + 1)] == qcd_expounded_bytes(q)[2 * i + 1]);
        assert((2 * i) / 2 == i && (2 * i) % 2 == 0);
        assert((2 * i + 1) / 2 == i && (2 * i + 1) % 2 == 1);
        let e = q[i].exponent as int;
        let m = q[i].mantissa as int;
        let w = (e * 2048) % 65536 + m % 2048;
        assert(w == e * 2048 + m);
        assert(be16(body, 1 + 2 * i) == (w / 256) * 256 + w % 256);
        assert(be16(body, 1 + 2 * i) == w);
        assert(w / 2048 == e && w % 2048 == m) by (nonlinear_arith)
            requires w == e * 2048 + m, 0 <= m < 2048, 0 <= e;
    }
    assert(steps =~= written_qcd(plan).steps);
}

/// The QCD segment that `encode_qcd` writes is one the decoder accepts, and it reads back the
/// quantization style, the guard bits and every subband's step.
pub proof fn lemma_qcd_reads_back(plan: EncodingPlan)
    requires
        qcd_spec(plan) is Some,
        plan.guard_bits < 8,
        forall|k: int| 0 <= k < plan.subband_quants@.len() ==> (#[trigger] plan.subband_quants@[k]).exponent < 32
            && plan.subband_quants@[k].mantissa < 2048,
    ensures
        seg_marker(qcd_spec(plan).unwrap()) == MARKER_QCD,
        seg_framed(qcd_spec(plan).unwrap()),
        qcd_body_ok(seg_body(qcd_spec(plan).unwrap())),
        qcd_view(seg_body(qcd_spec(plan).unwrap())) == written_qcd(plan),
{
    let seg = qcd_spec(plan).unwrap();
    let q = plan.subband_quants@;
    let n = q.len();
    let g = ((plan.guard_bits as int * 32) % 256) as u8;
    assert(g == plan.guard_bits * 32);
    assert(seg.subrange(0, 2) =~= u16_be(MARKER_QCD));
    lemma_be16_in(seg, 0, MARKER_QCD);
    let body = seg_body(seg);
    if plan.quantization_style is NoQuantization {
        let len = (3 + n) as u16;
        assert(seg.subrange(2, 4) =~= u16_be(len));
        lemma_be16_in(seg, 2, len);
        assert(body =~= seq![g] + qcd_reversible_bytes(q));
        assert forall|j: int| 0 <= j < n implies #[trigger] body[1 + j] == qcd_reversible_bytes(q)[j] by {}
        lemma_qcd_reversible_steps(plan, body);
    } else {
        let len = (3 + 2 * n) as u16;
        assert(seg.subrange(2, 4) =~= u16_be(len));
        lemma_be16_in(seg, 2, len);
        assert(body =~= seq![(g as int + 2) as u8] + qcd_expounded_bytes(q));
        assert forall|j: int| 0 <= j < 2 * n implies #[trigger] body[1 + j] == qcd_expounded_bytes(q)[j] by {}
        lemma_qcd_expounded_steps(plan, body);
    }
    assert(qcd_view(body) =~= written_qcd(plan));
}

} // verus!

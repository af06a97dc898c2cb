//! Annex A marker-segment decoding for the focused decoder.
use vstd::prelude::*;
use crate::bytes::{be16, be32, read_u16_at, read_u32_at};
use crate::error::{Jp2LamError, Result, decode_failed, unsupported};
use crate::plan_types::TilePartHeader;
use crate::text::{decimal, with_decimal, with_hex4};

verus! {

pub const MARKER_SOC: u16 = 0xff4f;
pub const MARKER_SOT: u16 = 0xff90;
pub const MARKER_SOD: u16 = 0xff93;
pub const MARKER_EOC: u16 = 0xffd9;
pub const MARKER_COM: u16 = 0xff64;
pub const MARKER_CAP: u16 = 0xff50;
pub const MARKER_SIZ: u16 = 0xff51;
pub const MARKER_COD: u16 = 0xff52;
pub const MARKER_COC: u16 = 0xff53;
pub const MARKER_TLM: u16 = 0xff55;
pub const MARKER_PLM: u16 = 0xff57;
pub const MARKER_PLT: u16 = 0xff58;
pub const MARKER_QCD: u16 = 0xff5c;
pub const MARKER_QCC: u16 = 0xff5d;
pub const MARKER_RGN: u16 = 0xff5e;
pub const MARKER_POC: u16 = 0xff5f;
pub const MARKER_PPM: u16 = 0xff60;
pub const MARKER_PPT: u16 = 0xff61;
pub const MARKER_CRG: u16 = 0xff63;

/// The decoded main header of a codestream.
#[derive(Debug, Clone, PartialEq, Eq)]
pub struct CodestreamHeader {
    pub siz: SizSegment,
    pub cod: CodSegment,
    pub qcd: QcdSegment,
    pub comment_count: usize,
}

/// Image and tile size (SIZ).
#[derive(Debug, Clone, PartialEq, Eq)]
pub struct SizSegment {
    pub rsiz: u16,
    pub width: u32,
    pub height: u32,
    pub x_origin: u32,
    pub y_origin: u32,
    pub tile_width: u32,
    pub tile_height: u32,
    pub tile_x_origin: u32,
    pub tile_y_origin: u32,
    pub components: Vec<ComponentSiz>,
}

/// Per-component fields of SIZ.
#[derive(Debug, Clone, Copy, PartialEq, Eq, Structural)]
pub struct ComponentSiz {
    pub precision: u8,
    pub signed: bool,
    pub dx: u8,
    pub dy: u8,
}

/// Coding style default (COD).
#[derive(Debug, Clone, PartialEq, Eq)]
pub struct CodSegment {
    pub progression_order: ProgressionOrder,
    pub layers: u16,
    pub use_mct: bool,
    pub decomposition_levels: u8,
    pub code_block_width: u32,
    pub code_block_height: u32,
    pub code_block_style: CodeBlockStyle,
    pub transform: WaveletTransform,
    pub uses_precincts: bool,
    pub sop_markers: bool,
    pub eph_markers: bool,
    pub precinct_sizes: Vec<PrecinctSize>,
}

/// Precinct size exponents of one resolution.
#[derive(Debug, Clone, Copy, PartialEq, Eq, Structural)]
pub struct PrecinctSize {
    pub pp_x: u8,
    pub pp_y: u8,
}

/// Packet progression order.
#[derive(Debug, Clone, Copy, PartialEq, Eq, Structural)]
pub enum ProgressionOrder {
    Lrcp,
    Rlcp,
    Rpcl,
    Pcrl,
    Cprl,
}

/// Wavelet filter.
#[derive(Debug, Clone, Copy, PartialEq, Eq, Structural)]
pub enum WaveletTransform {
    Irreversible97,
    Reversible53,
}

/// Code-block coding style flags.
#[derive(Debug, Clone, Copy, Default, PartialEq, Eq, Structural)]
pub struct CodeBlockStyle {
    pub bypass: bool,
    pub reset_contexts: bool,
    pub terminate_each_pass: bool,
    pub vertical_causal: bool,
    pub predictable_termination: bool,
    pub segmentation_symbols: bool,
}

/// Quantization default (QCD).
#[derive(Debug, Clone, PartialEq, Eq)]
pub struct QcdSegment {
    pub style: QuantizationStyle,
    pub guard_bits: u8,
    pub steps: Vec<QuantizationStep>,
}

/// Quantization style of QCD.
#[derive(Debug, Clone, Copy, PartialEq, Eq, Structural)]
pub enum QuantizationStyle {
    NoQuantization,
    ScalarDerived,
    ScalarExpounded,
}

/// One subband's quantization exponent and mantissa.
#[derive(Debug, Clone, Copy, PartialEq, Eq, Structural)]
pub struct QuantizationStep {
    pub exponent: u8,
    pub mantissa: u16,
}

// ----------------------------------------------------------------------------
// What a marker segment means, over its bytes
// ----------------------------------------------------------------------------

/// The marker code of a segment.
pub open spec fn seg_marker(seg: Seq<u8>) -> int {
    be16(seg, 0)
}

/// The segment's length field matches its size.
pub open spec fn seg_framed(seg: Seq<u8>) -> bool {
    &&& seg.len() >= 4
    &&& be16(seg, 2) >= 2
    &&& be16(seg, 2) + 2 == seg.len()
}

/// The bytes that follow the marker and length fields.
pub open spec fn seg_body(seg: Seq<u8>) -> Seq<u8> {
    seg.subrange(4, seg.len() as int)
}

/// Bit `k` of `v`.
pub open spec fn bit_of(v: u8, k: nat) -> bool {
    (v as int / pow2_int(k)) % 2 == 1
}

pub open spec fn pow2_int(k: nat) -> int
    decreases k,
{
    if k == 0 { 1 } else { 2 * pow2_int((k - 1) as nat) }
}

/// SIZ body: at least 38 bytes and exactly three bytes per signalled component.
pub open spec fn siz_body_ok(b: Seq<u8>) -> bool {
    &&& b.len() >= 38
    &&& b.len() == 36 + 3 * be16(b, 34)
}

pub open spec fn component_siz_at(b: Seq<u8>, off: int) -> ComponentSiz {
    ComponentSiz {
        precision: ((b[off] % 128) + 1) as u8,
        signed: b[off] >= 128,
        dx: b[off + 1],
        dy: b[off + 2],
    }
}

/// What a SIZ segment holds, as plain values.
#[verifier::ext_equal]
pub struct SizView {
    pub rsiz: u16,
    pub width: u32,
    pub height: u32,
    pub x_origin: u32,
    pub y_origin: u32,
    pub tile_width: u32,
    pub tile_height: u32,
    pub tile_x_origin: u32,
    pub tile_y_origin: u32,
    pub components: Seq<ComponentSiz>,
}

impl View for SizSegment {
    type V = SizView;

    open spec fn view(&self) -> SizView {
        SizView {
            rsiz: self.rsiz,
            width: self.width,
            height: self.height,
            x_origin: self.x_origin,
            y_origin: self.y_origin,
            tile_width: self.tile_width,
            tile_height: self.tile_height,
            tile_x_origin: self.tile_x_origin,
            tile_y_origin: self.tile_y_origin,
            components: self.components@,
        }
    }
}

/// The SIZ fields that body `b` encodes.
pub open spec fn siz_view(b: Seq<u8>) -> SizView {
    SizView {
        rsiz: be16(b, 0) as u16,
        width: be32(b, 2) as u32,
        height: be32(b, 6) as u32,
        x_origin: be32(b, 10) as u32,
        y_origin: be32(b, 14) as u32,
        tile_width: be32(b, 18) as u32,
        tile_height: be32(b, 22) as u32,
        tile_x_origin: be32(b, 26) as u32,
        tile_y_origin: be32(b, 30) as u32,
        components: Seq::new(be16(b, 34) as nat, |i: int| component_siz_at(b, 36 + 3 * i)),
    }
}

/// `s` holds the fields that SIZ body `b` encodes.
pub open spec fn siz_matches(s: SizSegment, b: Seq<u8>) -> bool {
    s@ == siz_view(b)
}

/// The code-block dimension that exponent field `e` signals.
pub open spec fn cb_dim(e: u8) -> u32 {
    if e == 0 { 4 } else if e == 1 { 8 } else if e == 2 { 16 } else if e == 3 { 32 }
    else if e == 4 { 64 } else if e == 5 { 128 } else if e == 6 { 256 } else if e == 7 { 512 }
    else { 1024 }
}

pub open spec fn progression_of(v: u8) -> ProgressionOrder {
    if v == 0 { ProgressionOrder::Lrcp } else if v == 1 { ProgressionOrder::Rlcp }
    else if v == 2 { ProgressionOrder::Rpcl } else if v == 3 { ProgressionOrder::Pcrl }
    else { ProgressionOrder::Cprl }
}

/// COD body accepted by the parser.
pub open spec fn cod_body_ok(b: Seq<u8>) -> bool {
    &&& b.len() >= 10
    &&& b[1] <= 4
    &&& b.len() == (if bit_of(b[0], 0) { 10 + b[5] + 1 } else { 10 })
    &&& b[8] < 64
    &&& b[9] <= 1
    &&& b[6] <= 8
    &&& b[7] <= 8
}

/// What a COD segment holds, as plain values.
#[verifier::ext_equal]
pub struct CodView {
    pub progression_order: ProgressionOrder,
    pub layers: u16,
    pub use_mct: bool,
    pub decomposition_levels: u8,
    pub code_block_width: u32,
    pub code_block_height: u32,
    pub code_block_style: CodeBlockStyle,
    pub transform: WaveletTransform,
    pub uses_precincts: bool,
    pub sop_markers: bool,
    pub eph_markers: bool,
    pub precinct_sizes: Seq<PrecinctSize>,
}

impl View for CodSegment {
    type V = CodView;

    open spec fn view(&self) -> CodView {
        CodView {
            progression_order: self.progression_order,
            layers: self.layers,
            use_mct: self.use_mct,
            decomposition_levels: self.decomposition_levels,
            code_block_width: self.code_block_width,
            code_block_height: self.code_block_height,
            code_block_style: self.code_block_style,
            transform: self.transform,
            uses_precincts: self.uses_precincts,
            sop_markers: self.sop_markers,
            eph_markers: self.eph_markers,
            precinct_sizes: self.precinct_sizes@,
        }
    }
}

/// The COD fields that body `b` encodes.
pub open spec fn cod_view(b: Seq<u8>) -> CodView {
    CodView {
        progression_order: progression_of(b[1]),
        layers: be16(b, 2) as u16,
        use_mct: b[4] != 0,
        decomposition_levels: b[5],
        code_block_width: cb_dim(b[6]),
        code_block_height: cb_dim(b[7]),
        code_block_style: CodeBlockStyle {
            bypass: bit_of(b[8], 0),
            reset_contexts: bit_of(b[8], 1),
            terminate_each_pass: bit_of(b[8], 2),
            vertical_causal: bit_of(b[8], 3),
            predictable_termination: bit_of(b[8], 4),
            segmentation_symbols: bit_of(b[8], 5),
        },
        transform: if b[9] == 0 { WaveletTransform::Irreversible97 } else { WaveletTransform::Reversible53 },
        uses_precincts: bit_of(b[0], 0),
        sop_markers: bit_of(b[0], 1),
        eph_markers: bit_of(b[0], 2),
        precinct_sizes: Seq::new((b.len() - 10) as nat, |i: int| PrecinctSize {
            pp_x: (b[10 + i] % 16) as u8,
            pp_y: (b[10 + i] / 16) as u8,
        }),
    }
}

/// `c` holds the fields that COD body `b` encodes.
pub open spec fn cod_matches(c: CodSegment, b: Seq<u8>) -> bool {
    c@ == cod_view(b)
}

/// QCD body accepted by the parser.
pub open spec fn qcd_body_ok(b: Seq<u8>) -> bool {
    &&& b.len() >= 1
    &&& b[0] % 32 <= 2
    &&& (b[0] % 32 != 0 ==> (b.len() - 1) % 2 == 0)
}

pub open spec fn qstyle_of(v: u8) -> QuantizationStyle {
    if v % 32 == 0 { QuantizationStyle::NoQuantization }
    else if v % 32 == 1 { QuantizationStyle::ScalarDerived }
    else { QuantizationStyle::ScalarExpounded }
}

/// What a QCD segment holds, as plain values.
#[verifier::ext_equal]
pub struct QcdView {
    pub style: QuantizationStyle,
    pub guard_bits: u8,
    pub steps: Seq<QuantizationStep>,
}

impl View for QcdSegment {
    type V = QcdView;

    open spec fn view(&self) -> QcdView {
        QcdView { style: self.style, guard_bits: self.guard_bits, steps: self.steps@ }
    }
}

/// The QCD fields that body `b` encodes.
pub open spec fn qcd_view(b: Seq<u8>) -> QcdView {
    QcdView {
        style: qstyle_of(b[0]),
        guard_bits: (b[0] / 32) as u8,
        steps: if b[0] % 32 == 0 {
            Seq::new((b.len() - 1) as nat, |i: int| QuantizationStep { exponent: (b[1 + i] / 8) as u8, mantissa: 0 })
        } else {
            Seq::new(((b.len() - 1) / 2) as nat, |i: int| QuantizationStep {
                exponent: (be16(b, 1 + 2 * i) / 2048) as u8,
                mantissa: (be16(b, 1 + 2 * i) % 2048) as u16,
            })
        },
    }
}

/// `q` holds the fields that QCD body `b` encodes.
pub open spec fn qcd_matches(q: QcdSegment, b: Seq<u8>) -> bool {
    q@ == qcd_view(b)
}

// ----------------------------------------------------------------------------
// Segment parsers
// ----------------------------------------------------------------------------

fn invalid(msg: &str) -> (e: Jp2LamError)
    ensures
        e is DecodeFailed,
        e.spec_message() == msg@,
{
    decode_failed(msg)
}

/// The marker code of a segment of at least four bytes.
pub fn marker(segment: &[u8]) -> (r: Result<u16>)
    ensures
        r is Ok <==> segment@.len() >= 4,
        r matches Ok(m) ==> m == seg_marker(segment@),
        r matches Err(e) ==> e is DecodeFailed,
{
    if segment.len() < 4 {
        return Err(invalid("truncated marker segment"));
    }
    Ok(read_u16_at(segment, 0).unwrap())
}

/// The body of a well-framed marker segment.
pub fn body(segment: &[u8]) -> (r: Result<&[u8]>)
    ensures
        r is Ok <==> seg_framed(segment@),
        r matches Ok(b) ==> b@ == seg_body(segment@),
        r matches Err(e) ==> e is DecodeFailed && e.spec_message() == seg_refusal(segment@),
{
    if segment.len() < 4 {
        return Err(invalid("truncated marker segment"));
    }
    let marker_len = read_u16_at(segment, 2).unwrap() as usize;
    if marker_len < 2 || marker_len + 2 != segment.len() {
        return Err(invalid("marker segment length mismatch"));
    }
    Ok(vstd::slice::slice_subrange(segment, 4, segment.len()))
}

/// Parses a SIZ marker segment.
pub fn parse_siz(segment: &[u8]) -> (r: Result<SizSegment>)
    ensures
        r is Ok <==> seg_framed(segment@) && siz_body_ok(seg_body(segment@)),
        r matches Ok(s) ==> siz_matches(s, seg_body(segment@)),
        r matches Err(e) ==> e is DecodeFailed,
{
    let body = body(segment)?;
    if body.len() < 38 {
        return Err(invalid("SIZ marker body is too short"));
    }
    let component_count = read_u16_at(body, 34).unwrap() as usize;
    if body.len() - 36 != component_count * 3 {
        return Err(invalid("SIZ marker length does not match component count"));
    }
    let mut components: Vec<ComponentSiz> = Vec::new();
    let mut idx: usize = 0;
    while idx < component_count
        invariant
            body@.len() == 36 + 3 * component_count,
            body@.len() <= usize::MAX,
            idx <= component_count,
            components@.len() == idx,
            forall|i: int| 0 <= i < idx ==> #[trigger] components@[i] == component_siz_at(body@, 36 + 3 * i),
        decreases component_count - idx,
    {
        let off = 36 + idx * 3;
        let ssiz = body[off];
        components.push(ComponentSiz {
            precision: (ssiz % 128) + 1,
            signed: ssiz >= 128,
            dx: body[off + 1],
            dy: body[off + 2],
        });
        idx += 1;
    }
    let res = SizSegment {
        rsiz: read_u16_at(body, 0).unwrap(),
        width: read_u32_at(body, 2).unwrap(),
        height: read_u32_at(body, 6).unwrap(),
        x_origin: read_u32_at(body, 10).unwrap(),
        y_origin: read_u32_at(body, 14).unwrap(),
        tile_width: read_u32_at(body, 18).unwrap(),
        tile_height: read_u32_at(body, 22).unwrap(),
        tile_x_origin: read_u32_at(body, 26).unwrap(),
        tile_y_origin: read_u32_at(body, 30).unwrap(),
        components,
    };
    assert(res@ =~= siz_view(body@));
    Ok(res)
}

/// Bit `k` of `v`.
pub fn flag(v: u8, k: u32) -> (b: bool)
    requires
        k < 8,
    ensures
        b == bit_of(v, k as nat),
{
    proof { reveal_with_fuel(pow2_int, 9); }
    let d: u32 = match k { 0 => 1, 1 => 2, 2 => 4, 3 => 8, 4 => 16, 5 => 32, 6 => 64, _ => 128 };
    assert(d == pow2_int(k as nat));
    ((v as u32) / d) % 2 == 1
}

/// The message with which a marker segment that is not framed is refused.
pub open spec fn seg_refusal(seg: Seq<u8>) -> Seq<char> {
    if seg.len() < 4 { "truncated marker segment"@ } else { "marker segment length mismatch"@ }
}

/// The message with which a code-block exponent field above the Part 1 limit is refused.
pub open spec fn cb_exponent_refusal(encoded: u8, width_axis: bool) -> Seq<char> {
    "unsupported code-block "@ + (if width_axis { "width"@ } else { "height"@ }) + ": encoded exponent "@
        + decimal(encoded as nat) + " exceeds Part 1 limit"@
}

/// The message with which a COD body that does not parse is refused, by the first check it fails.
pub open spec fn cod_refusal(b: Seq<u8>) -> Seq<char> {
    if b.len() < 10 {
        "COD marker body is too short"@
    } else if b[1] > 4 {
        "unsupported progression order "@ + decimal(b[1] as nat) + ""@
    } else if b.len() != (if bit_of(b[0], 0) { 10 + b[5] + 1 } else { 10 }) {
        "COD marker length does not match Scod precinct flag"@
    } else if b[8] >= 64 {
        "COD code-block style has reserved bits set"@
    } else if b[9] > 1 {
        "unsupported wavelet transform "@ + decimal(b[9] as nat) + ""@
    } else if b[6] > 8 {
        cb_exponent_refusal(b[6], true)
    } else {
        cb_exponent_refusal(b[7], false)
    }
}

/// The message with which a COD segment that does not parse is refused.
pub open spec fn cod_segment_refusal(seg: Seq<u8>) -> Seq<char> {
    if seg_framed(seg) { cod_refusal(seg_body(seg)) } else { seg_refusal(seg) }
}

/// The code-block dimension that exponent field `encoded` signals.
pub fn code_block_dimension(encoded: u8, width_axis: bool) -> (r: Result<u32>)
    ensures
        r is Ok <==> encoded <= 8,
        r matches Ok(v) ==> v == cb_dim(encoded),
        r matches Err(e) ==> e is DecodeFailed && e.spec_message() == cb_exponent_refusal(encoded, width_axis),
{
    if encoded > 8 {
        let axis = if width_axis { "width" } else { "height" };
        let mut msg = String::from_str("unsupported code-block ");
        msg.append(axis);
        let rest = with_decimal(": encoded exponent ", encoded as u64, " exceeds Part 1 limit");
        msg.append(rest.as_str());
        return Err(Jp2LamError::DecodeFailed(msg));
    }
    Ok(match encoded { 0 => 4, 1 => 8, 2 => 16, 3 => 32, 4 => 64, 5 => 128, 6 => 256, 7 => 512, _ => 1024 })
}

/// Parses a COD marker segment.
pub fn parse_cod(segment: &[u8]) -> (r: Result<CodSegment>)
    ensures
        r is Ok <==> seg_framed(segment@) && cod_body_ok(seg_body(segment@)),
        r matches Ok(c) ==> cod_matches(c, seg_body(segment@)),
        r matches Err(e) ==> e is DecodeFailed && e.spec_message() == cod_segment_refusal(segment@),
{
    let body = body(segment)?;
    if body.len() < 10 {
        return Err(invalid("COD marker body is too short"));
    }
    let scod = body[0];
    let uses_precincts = flag(scod, 0);
    let progression_order = match body[1] {
        0 => ProgressionOrder::Lrcp,
        1 => ProgressionOrder::Rlcp,
        2 => ProgressionOrder::Rpcl,
        3 => ProgressionOrder::Pcrl,
        4 => ProgressionOrder::Cprl,
        value => {
            return Err(Jp2LamError::DecodeFailed(with_decimal("unsupported progression order ", value as u64, "")));
        },
    };
    let decomposition_levels = body[5];
    let expected_len: usize = if uses_precincts { 10 + decomposition_levels as usize + 1 } else { 10 };
    if body.len() != expected_len {
        return Err(invalid("COD marker length does not match Scod precinct flag"));
    }
    let style = body[8];
    if style >= 64 {
        return Err(invalid("COD code-block style has reserved bits set"));
    }
    let transform = match body[9] {
        0 => WaveletTransform::Irreversible97,
        1 => WaveletTransform::Reversible53,
        value => {
            return Err(Jp2LamError::DecodeFailed(with_decimal("unsupported wavelet transform ", value as u64, "")));
        },
    };
    let mut precinct_sizes: Vec<PrecinctSize> = Vec::new();
    let mut i: usize = 10;
    while i < body.len()
        invariant
            10 <= i <= body@.len(),
            precinct_sizes@.len() == i - 10,
            forall|j: int| 0 <= j < precinct_sizes@.len() ==> #[trigger] precinct_sizes@[j] == (PrecinctSize {
                pp_x: (body@[10 + j] % 16) as u8,
                pp_y: (body@[10 + j] / 16) as u8,
            }),
        decreases body@.len() - i,
    {
        let value = body[i];
        precinct_sizes.push(PrecinctSize { pp_x: value % 16, pp_y: value / 16 });
        i += 1;
    }
    let code_block_width = code_block_dimension(body[6], true)?;
    let code_block_height = code_block_dimension(body[7], false)?;
    let res = CodSegment {
        progression_order,
        layers: read_u16_at(body, 2).unwrap(),
        use_mct: body[4] != 0,
        decomposition_levels,
        code_block_width,
        code_block_height,
        code_block_style: CodeBlockStyle {
            bypass: flag(style, 0),
            reset_contexts: flag(style, 1),
            terminate_each_pass: flag(style, 2),
            vertical_causal: flag(style, 3),
            predictable_termination: flag(style, 4),
            segmentation_symbols: flag(style, 5),
        },
        transform,
        uses_precincts,
        sop_markers: flag(scod, 1),
        eph_markers: flag(scod, 2),
        precinct_sizes,
    };
    assert(res@ =~= cod_view(body@));
    Ok(res)
}

/// Parses a QCD marker segment.
pub fn parse_qcd(segment: &[u8]) -> (r: Result<QcdSegment>)
    ensures
        r is Ok <==> seg_framed(segment@) && qcd_body_ok(seg_body(segment@)),
        r matches Ok(q) ==> qcd_matches(q, seg_body(segment@)),
        r matches Err(e) ==> e is DecodeFailed,
{
    let body = body(segment)?;
    if body.len() == 0 {
        return Err(invalid("QCD marker body is too short"));
    }
    let sqcd = body[0];
    let guard_bits = sqcd / 32;
    let style = match sqcd % 32 {
        0 => QuantizationStyle::NoQuantization,
        1 => QuantizationStyle::ScalarDerived,
        2 => QuantizationStyle::ScalarExpounded,
        value => {
            return Err(Jp2LamError::DecodeFailed(with_decimal("unsupported QCD style ", value as u64, "")));
        },
    };
    let mut steps: Vec<QuantizationStep> = Vec::new();
    if sqcd % 32 == 0 {
        let mut i: usize = 1;
        while i < body.len()
            invariant
                1 <= i <= body@.len(),
                steps@.len() == i - 1,
                forall|j: int| 0 <= j < steps@.len() ==> #[trigger] steps@[j] == (QuantizationStep {
                    exponent: (body@[1 + j] / 8) as u8,
                    mantissa: 0,
                }),
            decreases body@.len() - i,
        {
            steps.push(QuantizationStep { exponent: body[i] / 8, mantissa: 0 });
            i += 1;
        }
    } else {
        if (body.len() - 1) % 2 != 0 {
            return Err(invalid("QCD 16-bit step payload has odd length"));
        }
        let count = (body.len() - 1) / 2;
        let mut i: usize = 0;
        while i < count
            invariant
                count == (body@.len() - 1) / 2,
                (body@.len() - 1) % 2 == 0,
                body@.len() <= usize::MAX,
                i <= count,
                steps@.len() == i,
                forall|j: int| 0 <= j < steps@.len() ==> #[trigger] steps@[j] == (QuantizationStep {
                    exponent: (be16(body@, 1 + 2 * j) / 2048) as u8,
                    mantissa: (be16(body@, 1 + 2 * j) % 2048) as u16,
                }),
            decreases count - i,
        {
            let packed = read_u16_at(body, 1 + 2 * i).unwrap();
            steps.push(QuantizationStep { exponent: (packed / 2048) as u8, mantissa: packed % 2048 });
            i += 1;
        }
    }
    let res = QcdSegment { style, guard_bits, steps };
    assert(res@ =~= qcd_view(body@));
    Ok(res)
}

} // verus!

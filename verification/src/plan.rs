//! The encoding plan: everything the encoder decides from the image and the options before it
//! touches a sample (lane, wavelet, decomposition levels, code-block size, quantization).
use vstd::prelude::*;
use crate::decode_markers::{ProgressionOrder, QuantizationStyle, WaveletTransform};
use crate::error::{Result, invalid_input};
use crate::header::{floor_log2, max_decompositions, max_dwt_decompositions};
use crate::model::{ColorSpace, EncodeOptions, Image, OutputFormat};
use crate::plan_types::{BandOrientation, CodeBlockSize, band_gain, spec_band_gain};

verus! {

/// The encoder lanes: grayscale or colour, lossless or lossy.
#[derive(Debug, Clone, Copy, PartialEq, Eq, Structural)]
pub enum EncodeLane {
    GrayLossless,
    RgbLossless,
    GrayLossy,
    RgbLossy,
}

/// How one component is signalled in SIZ.
#[derive(Debug, Clone, Copy, PartialEq, Eq, Structural)]
pub struct PlanComponent {
    pub precision: u32,
    pub signed: bool,
    pub dx: u32,
    pub dy: u32,
}

/// The quantization of one subband, as QCD signals it.
#[derive(Debug, Clone, Copy, PartialEq, Eq, Structural)]
pub struct SubbandQuant {
    pub resolution: u8,
    pub band: BandOrientation,
    pub exponent: u8,
    pub mantissa: u16,
}

/// The encoding plan.
#[derive(Debug, Clone)]
pub struct EncodingPlan {
    pub lane: EncodeLane,
    pub colorspace: ColorSpace,
    pub width: u32,
    pub height: u32,
    pub component_count: u16,
    pub components: Vec<PlanComponent>,
    pub decomposition_levels: u8,
    pub code_block_size: CodeBlockSize,
    pub guard_bits: u8,
    pub use_mct: bool,
    pub transform: WaveletTransform,
    pub quantization_style: QuantizationStyle,
    pub progression_order: ProgressionOrder,
    pub layers: u16,
    pub subband_quants: Vec<SubbandQuant>,
    pub quality: u8,
    pub output_format: OutputFormat,
}

/// The sample precision the encoder takes.
pub const PLAN_PRECISION: u32 = 8;
/// The most decomposition levels the encoder uses.
pub const MAX_LEVELS: u8 = 5;
/// The nominal code-block side.
pub const CODE_BLOCK_SIDE: u32 = 64;
/// The guard bits the encoder signals.
pub const GUARD_BITS: u8 = 2;

/// floor(2^gain / norm * 8192) for the 9/7 synthesis norms of each orientation (LL, HL, LH,
/// HH) at decomposition levels 0 to 8 (9 for LL), which the scalar-expounded step sizes use.
pub open spec fn norm_step_97(orient: nat, level: nat) -> int {
    if orient == 0 {
        if level == 0 { 8192 } else if level == 1 { 4168 } else if level == 2 { 1961 } else if level == 3 { 974 }
        else if level == 4 { 484 } else if level == 5 { 242 } else if level == 6 { 121 } else if level == 7 { 60 }
        else if level == 8 { 30 } else { 15 }
    } else if orient == 1 || orient == 2 {
        if level == 0 { 8102 } else if level == 1 { 4107 } else if level == 2 { 1960 } else if level == 3 { 961 }
        else if level == 4 { 478 } else if level == 5 { 238 } else if level == 6 { 119 } else if level == 7 { 59 }
        else { 29 }
    } else {
        if level == 0 { 15753 } else if level == 1 { 8478 } else if level == 2 { 3944 } else if level == 3 { 1907 }
        else if level == 4 { 944 } else if level == 5 { 470 } else if level == 6 { 235 } else if level == 7 { 117 }
        else { 58 }
    }
}

/// The index of an orientation in the norm tables.
pub open spec fn orient_index(band: BandOrientation) -> nat {
    match band {
        BandOrientation::Ll => 0,
        BandOrientation::Hl => 1,
        BandOrientation::Lh => 2,
        BandOrientation::Hh => 3,
    }
}

/// The integer 9/7 step size of a band at a decomposition level.
pub fn norm_step(band: BandOrientation, level: u32) -> (s: i32)
    ensures
        s == norm_step_97(orient_index(band), level as nat),
        15 <= s <= 15753,
{
    let o: u32 = match band {
        BandOrientation::Ll => 0,
        BandOrientation::Hl => 1,
        BandOrientation::Lh => 2,
        BandOrientation::Hh => 3,
    };
    if o == 0 {
        if level == 0 { 8192 } else if level == 1 { 4168 } else if level == 2 { 1961 } else if level == 3 { 974 }
        else if level == 4 { 484 } else if level == 5 { 242 } else if level == 6 { 121 } else if level == 7 { 60 }
        else if level == 8 { 30 } else { 15 }
    } else if o == 1 || o == 2 {
        if level == 0 { 8102 } else if level == 1 { 4107 } else if level == 2 { 1960 } else if level == 3 { 961 }
        else if level == 4 { 478 } else if level == 5 { 238 } else if level == 6 { 119 } else if level == 7 { 59 }
        else { 29 }
    } else {
        if level == 0 { 15753 } else if level == 1 { 8478 } else if level == 2 { 3944 } else if level == 3 { 1907 }
        else if level == 4 { 944 } else if level == 5 { 470 } else if level == 6 { 235 } else if level == 7 { 117 }
        else { 58 }
    }
}

/// floor(log2(v)) of a positive step size.
fn floor_log2_i32(v: i32) -> (r: i32)
    requires
        v >= 1,
    ensures
        r == floor_log2(v as nat),
        0 <= r < 31,
{
    let mut n: i32 = v;
    let mut k: i32 = 0;
    proof { lemma_floor_log2_lt(v as nat); }
    while n > 1
        invariant
            n >= 1,
            k + floor_log2(n as nat) == floor_log2(v as nat),
            floor_log2(v as nat) < 31,
            k >= 0,
        decreases n,
    {
        n = n / 2;
        k = k + 1;
    }
    k
}

proof fn lemma_floor_log2_lt(v: nat)
    requires
        v < 0x8000_0000,
    ensures
        floor_log2(v) < 31,
{
    assert(crate::decode_markers::pow2_int(31) == 0x8000_0000) by {
        reveal_with_fuel(crate::decode_markers::pow2_int, 32);
    }
    crate::header::lemma_floor_log2_bound(v, 31);
}

/// The exponent and mantissa that QCD signals for an integer step size (times 8192) of a band
/// with `numbps` nominal bit-planes (E.1.1): the step's top 11 fractional bits, and how far its
/// leading bit lies below the nominal range, kept to its low eight bits. A step below one is
/// taken as one for the position of its leading bit.
pub open spec fn spec_encode_stepsize(stepsize: i32, numbps: u32) -> (u8, u16) {
    let l = if stepsize >= 1 { floor_log2(stepsize as nat) as int } else { 0 };
    let p = l - 13;
    let n = 11 - l;
    let scaled: i32 = if n < 0 { stepsize >> ((-n) as u32) } else { stepsize << (n as u32) };
    let e = numbps - p;
    ((if e < 0 { 0 } else { e }) as u8, (scaled & 0x7ff) as u16)
}

/// Packs an integer step size (times 8192) into QCD's exponent and mantissa.
pub fn encode_stepsize(stepsize: i32, numbps: u32) -> (r: (u8, u16))
    requires
        numbps <= 0x7fff_fff0,
    ensures
        r == spec_encode_stepsize(stepsize, numbps),
{
    let l = floor_log2_i32(if stepsize >= 1 { stepsize } else { 1 });
    proof {
        if stepsize < 1 {
            assert(floor_log2(1) == 0) by { reveal_with_fuel(floor_log2, 2); }
        }
    }
    let p = l - 13;
    let n = 11 - l;
    let scaled: i32 = if n < 0 { stepsize >> ((-n) as u32) } else { stepsize << (n as u32) };
    let e: i32 = numbps as i32 - p;
    let exponent: u8 = if e < 0 { 0 } else { e as u8 };
    (exponent, (scaled & 0x7ff) as u16)
}

/// The resolution of subband `i` in QCD order: LL of resolution 0, then HL, LH, HH of each
/// resolution from 1 up.
pub open spec fn subband_resolution(i: nat) -> nat {
    if i == 0 { 0 } else { ((i - 1) as nat) / 3 + 1 }
}

/// The orientation of subband `i` in QCD order.
pub open spec fn subband_band(i: nat) -> BandOrientation {
    if i == 0 {
        BandOrientation::Ll
    } else if ((i - 1) as nat) % 3 == 0 {
        BandOrientation::Hl
    } else if ((i - 1) as nat) % 3 == 1 {
        BandOrientation::Lh
    } else {
        BandOrientation::Hh
    }
}

/// The quantization of subband `i` of a plan with `levels` decompositions.
pub open spec fn subband_quant_spec(lossless: bool, levels: nat, i: nat) -> SubbandQuant {
    let r = subband_resolution(i);
    let band = subband_band(i);
    let gain = spec_band_gain(band) as int;
    if lossless {
        SubbandQuant { resolution: r as u8, band, exponent: (PLAN_PRECISION + gain) as u8, mantissa: 0 }
    } else {
        let level = (levels - r) as nat;
        let q = spec_encode_stepsize(norm_step_97(orient_index(band), level) as i32, (PLAN_PRECISION + gain) as u32);
        SubbandQuant { resolution: r as u8, band, exponent: q.0, mantissa: q.1 }
    }
}

/// The QCD exponent and mantissa of a 9/7 subband at `resolution` of an image with
/// `num_resolutions` resolutions and `precision`-bit samples.
pub fn irreversible_expounded_quant(precision: u32, num_resolutions: u8, resolution: u8, band: BandOrientation) -> (r: (u8, u16))
    requires
        precision <= 0x7fff_ff00,
    ensures
        r == spec_encode_stepsize(
            norm_step_97(orient_index(band), if num_resolutions >= 1 + resolution { (num_resolutions - 1 - resolution) as nat } else { 0 }) as i32,
            (precision + spec_band_gain(band)) as u32),
{
    let gain = band_gain(band) as u32;
    let level: u32 = if num_resolutions as u32 >= 1 + resolution as u32 { (num_resolutions - 1 - resolution) as u32 } else { 0 };
    encode_stepsize(norm_step(band, level), precision + gain)
}

/// The nominal bit-planes of a reversible subband: the precision plus the band's gain.
pub fn reversible_exponent(precision: u32, band: BandOrientation) -> (e: u8)
    ensures
        e == (if precision > 255 { 255 } else { precision }) + spec_band_gain(band) || e == 255,
        precision + spec_band_gain(band) <= 255 ==> e == precision + spec_band_gain(band),
{
    let p: u8 = if precision > 255 { 255 } else { precision as u8 };
    let g = band_gain(band);
    if p > 255 - g { 255 } else { p + g }
}

/// Why the encoder refuses an image or options, if it does.
pub open spec fn plan_issue(image: Image, options: EncodeOptions) -> bool {
    let n = image.components@.len();
    ||| options.quality > 100
    ||| image.width == 0 || image.height == 0
    ||| n != image.colorspace.spec_component_count()
    ||| (image.width as nat) * (image.height as nat) > usize::MAX
    ||| exists|k: int| 0 <= k < n && !component_plain(#[trigger] image.components@[k], image.width, image.height)
}

/// A component that the encoder takes: full size, unsigned 8-bit, not subsampled.
pub open spec fn component_plain(c: crate::model::Component, width: u32, height: u32) -> bool {
    &&& c.width == width
    &&& c.height == height
    &&& c.precision == PLAN_PRECISION
    &&& !c.signed
    &&& c.dx == 1
    &&& c.dy == 1
    &&& c.data@.len() == (width as nat) * (height as nat)
}

/// The plan's decomposition levels for an image.
pub open spec fn plan_levels(width: u32, height: u32) -> nat {
    let m = max_decompositions(width, height);
    if m < MAX_LEVELS { m } else { MAX_LEVELS as nat }
}

/// Whether `p` is the plan for `image` and `options`.
pub open spec fn plan_matches(p: EncodingPlan, image: Image, options: EncodeOptions) -> bool {
    let lossless = options.quality == 100;
    let gray = image.colorspace.spec_encoding_domain() == ColorSpace::Gray;
    let n = image.components@.len();
    let levels = plan_levels(image.width, image.height);
    &&& p.lane == (if gray { if lossless { EncodeLane::GrayLossless } else { EncodeLane::GrayLossy } }
        else { if lossless { EncodeLane::RgbLossless } else { EncodeLane::RgbLossy } })
    &&& p.colorspace == image.colorspace.spec_encoding_domain()
    &&& p.width == image.width
    &&& p.height == image.height
    &&& p.component_count == n
    &&& p.components@.len() == n
    &&& forall|k: int| 0 <= k < n ==> #[trigger] p.components@[k] == (PlanComponent {
        precision: PLAN_PRECISION, signed: false, dx: 1, dy: 1 })
    &&& p.decomposition_levels == levels
    &&& p.code_block_size == (CodeBlockSize { width: CODE_BLOCK_SIDE, height: CODE_BLOCK_SIDE })
    &&& p.guard_bits == GUARD_BITS
    &&& p.use_mct == (n == 3)
    &&& p.transform == (if lossless { WaveletTransform::Reversible53 } else { WaveletTransform::Irreversible97 })
    &&& p.quantization_style == (if lossless { QuantizationStyle::NoQuantization } else { QuantizationStyle::ScalarExpounded })
    &&& p.progression_order == ProgressionOrder::Lrcp
    &&& p.layers == 1
    &&& p.subband_quants@.len() == 1 + 3 * levels
    &&& forall|i: int| 0 <= i < p.subband_quants@.len() ==> #[trigger] p.subband_quants@[i]
        == subband_quant_spec(lossless, levels, i as nat)
    &&& p.quality == options.quality
    &&& p.output_format == options.format
}

/// Checks one component against what the encoder takes.
fn component_ok(c: &crate::model::Component, width: u32, height: u32, area: usize) -> (b: bool)
    requires
        area == (width as nat) * (height as nat),
    ensures
        b == component_plain(*c, width, height),
{
    c.width == width && c.height == height && c.precision == PLAN_PRECISION && !c.signed
        && c.dx == 1 && c.dy == 1 && c.data.len() == area
}

impl EncodingPlan {
    /// Decides the plan for encoding `image` with `options`: quality 100 takes the lossless
    /// reversible 5/3 lane, anything lower the lossy irreversible 9/7 lane; up to five
    /// decomposition levels, 64 by 64 code-blocks, two guard bits, one layer in LRCP order,
    /// and the multiple-component transform for three components.
    pub fn build(image: &Image, options: &EncodeOptions) -> (r: Result<EncodingPlan>)
        ensures
            r is Ok <==> !plan_issue(*image, *options),
            r matches Ok(p) ==> plan_matches(p, *image, *options),
            r matches Err(e) ==> e is InvalidInput,
    {
        if options.quality > 100 {
            return Err(invalid_input("quality must be in 0..=100"));
        }
        if image.width == 0 || image.height == 0 {
            return Err(invalid_input("image dimensions must be non-zero"));
        }
        let n = image.components.len();
        if n != image.colorspace.component_count() {
            return Err(invalid_input("component count does not match the colour space"));
        }
        let area = match (image.width as usize).checked_mul(image.height as usize) {
            Some(a) => a,
            None => { return Err(invalid_input("image area exceeds usize")); },
        };
        let mut components: Vec<PlanComponent> = Vec::new();
        let mut k: usize = 0;
        while k < n
            invariant
                n == image.components@.len(),
                area == (image.width as nat) * (image.height as nat),
                k <= n,
                components@.len() == k,
                forall|j: int| 0 <= j < k ==> component_plain(#[trigger] image.components@[j], image.width, image.height),
                forall|j: int| 0 <= j < k ==> #[trigger] components@[j] == (PlanComponent {
                    precision: PLAN_PRECISION, signed: false, dx: 1, dy: 1 }),
            decreases n - k,
        {
            if !component_ok(&image.components[k], image.width, image.height, area) {
                return Err(invalid_input("components must be full-size unsigned 8-bit planes"));
            }
            components.push(PlanComponent { precision: PLAN_PRECISION, signed: false, dx: 1, dy: 1 });
            k = k + 1;
        }
        let lossless = options.quality == 100;
        let gray = image.colorspace.encoding_domain() == ColorSpace::Gray;
        let max_levels = max_dwt_decompositions(image.width, image.height);
        let levels: u8 = if max_levels < MAX_LEVELS { max_levels } else { MAX_LEVELS };
        let mut quants: Vec<SubbandQuant> = Vec::new();
        let count: usize = 1 + 3 * levels as usize;
        let mut i: usize = 0;
        while i < count
            invariant
                count == 1 + 3 * levels,
                levels <= 5,
                i <= count,
                quants@.len() == i,
                forall|j: int| 0 <= j < i ==> #[trigger] quants@[j] == subband_quant_spec(lossless, levels as nat, j as nat),
            decreases count - i,
        {
            let r: u8 = if i == 0 { 0 } else { ((i - 1) / 3 + 1) as u8 };
            let band = if i == 0 {
                BandOrientation::Ll
            } else if (i - 1) % 3 == 0 {
                BandOrientation::Hl
            } else if (i - 1) % 3 == 1 {
                BandOrientation::Lh
            } else {
                BandOrientation::Hh
            };
            let gain = band_gain(band);
            let q = if lossless {
                SubbandQuant { resolution: r, band, exponent: PLAN_PRECISION as u8 + gain, mantissa: 0 }
            } else {
                let (exponent, mantissa) = irreversible_expounded_quant(PLAN_PRECISION, levels + 1, r, band);
                SubbandQuant { resolution: r, band, exponent, mantissa }
            };
            quants.push(q);
            i = i + 1;
        }
        let lane = if gray {
            if lossless { EncodeLane::GrayLossless } else { EncodeLane::GrayLossy }
        } else {
            if lossless { EncodeLane::RgbLossless } else { EncodeLane::RgbLossy }
        };
        Ok(EncodingPlan {
            lane,
            colorspace: image.colorspace.encoding_domain(),
            width: image.width,
            height: image.height,
            component_count: n as u16,
            components,
            decomposition_levels: levels,
            code_block_size: CodeBlockSize { width: CODE_BLOCK_SIDE, height: CODE_BLOCK_SIDE },
            guard_bits: GUARD_BITS,
            use_mct: n == 3,
            transform: if lossless { WaveletTransform::Reversible53 } else { WaveletTransform::Irreversible97 },
            quantization_style: if lossless { QuantizationStyle::NoQuantization } else { QuantizationStyle::ScalarExpounded },
            progression_order: ProgressionOrder::Lrcp,
            layers: 1,
            subband_quants: quants,
            quality: options.quality,
            output_format: options.format,
        })
    }
}

} // verus!

//! Content classes for picking a lossy quality, and the integer luma histogram that the
//! classification reads.
use vstd::prelude::*;
use crate::model::{ColorSpace, Image};

verus! {

/// Lossy quality for continuous-tone images (photographs, plates, engravings).
pub const PHOTO_QUALITY: u8 = 78;

/// Lossy quality for sparse-on-white graphics (line art, text, diagrams, maps).
pub const GRAPHICS_QUALITY: u8 = 55;

/// Luma value above which a pixel counts as near-white page ground.
pub const BRIGHT_LUMA_MIN: u32 = 224;

/// Coarse content class used to pick a lossy quality.
#[derive(Debug, Clone, Copy, PartialEq, Eq, Structural)]
pub enum ContentClass {
    /// Continuous-tone imagery: photographs, plates, detailed engravings.
    Photo,
    /// Sparse marks on a light ground: line art, text, diagrams, maps.
    Graphics,
}

impl ContentClass {
    /// The tuned lossy quality of the class.
    pub open spec fn spec_quality(self) -> u8 {
        match self {
            ContentClass::Photo => PHOTO_QUALITY,
            ContentClass::Graphics => GRAPHICS_QUALITY,
        }
    }

    /// Tuned lossy quality for this class.
    pub fn quality(self) -> (q: u8)
        ensures
            q == self.spec_quality(),
    {
        match self {
            ContentClass::Photo => PHOTO_QUALITY,
            ContentClass::Graphics => GRAPHICS_QUALITY,
        }
    }

    /// Short label for logging: `"photo"` or `"graphics"`.
    pub fn label(self) -> (s: &'static str)
        ensures
            s@ == (if self is Photo { "photo"@ } else { "graphics"@ }),
    {
        match self {
            ContentClass::Photo => "photo",
            ContentClass::Graphics => "graphics",
        }
    }
}

/// A value clamped to `0..=255`.
pub open spec fn clamp_u8(v: int) -> int {
    if v < 0 { 0 } else if v > 255 { 255 } else { v }
}

/// Integer BT.601 luma of clamped 8-bit R, G, B.
pub open spec fn spec_luma601(r: i32, g: i32, b: i32) -> int {
    clamp_u8((77 * clamp_u8(r as int) + 150 * clamp_u8(g as int) + 29 * clamp_u8(b as int) + 128) / 256)
}

/// Integer BT.601 luma from 8-bit R, G, B, each clamped to `0..=255` first.
pub fn luma601(r: i32, g: i32, b: i32) -> (l: usize)
    ensures
        l == spec_luma601(r, g, b),
        l < 256,
{
    let r: i32 = if r < 0 { 0 } else if r > 255 { 255 } else { r };
    let g: i32 = if g < 0 { 0 } else if g > 255 { 255 } else { g };
    let b: i32 = if b < 0 { 0 } else if b > 255 { 255 } else { b };
    let v: i32 = (77 * r + 150 * g + 29 * b + 128) / 256;
    assert(v <= 255) by (nonlinear_arith)
        requires v == (77 * r + 150 * g + 29 * b + 128) / 256, 0 <= r <= 255, 0 <= g <= 255, 0 <= b <= 255;
    assert(v >= 0) by (nonlinear_arith)
        requires v == (77 * r + 150 * g + 29 * b + 128) / 256, 0 <= r <= 255, 0 <= g <= 255, 0 <= b <= 255;
    v as usize
}

/// The luma of 8-bit R, G and B is their BT.601 weighted sum, with weights 77 for red, 150 for
/// green and 29 for blue out of 256, rounded to the nearest integer; so a grey pixel keeps its
/// value, and red weighs more than blue: full red gives 77, full blue 29.
pub proof fn lemma_luma601_weights(r: i32, g: i32, b: i32)
    requires
        0 <= r <= 255,
        0 <= g <= 255,
        0 <= b <= 255,
    ensures
        256 * spec_luma601(r, g, b) <= 77 * r + 150 * g + 29 * b + 128 < 256 * spec_luma601(r, g, b) + 256,
        r == g && g == b ==> spec_luma601(r, g, b) == r,
        spec_luma601(r, 0, 0) >= spec_luma601(0, 0, r),
        spec_luma601(255, 0, 0) == 77,
        spec_luma601(0, 0, 255) == 29,
{
    let t = 77 * r + 150 * g + 29 * b + 128;
    assert(0 <= t / 256 <= 255);
    assert(256 * (t / 256) <= t < 256 * (t / 256) + 256);
    assert((77 * r + 128) / 256 >= (29 * r + 128) / 256);
}

/// The spread `max - min` of the clamped R, G, B of one pixel.
pub open spec fn spec_chroma_spread(r: i32, g: i32, b: i32) -> int {
    let mx = if r >= g && r >= b { r } else if g >= b { g } else { b };
    let mn = if r <= g && r <= b { r } else if g <= b { g } else { b };
    clamp_u8(mx as int) - clamp_u8(mn as int)
}

/// The luma bin of pixel `i` of the image: its clamped sample for a grayscale image, the luma of
/// its R, G and B planes otherwise.
pub open spec fn pixel_bin(image: Image, i: int) -> int {
    if image.colorspace == ColorSpace::Gray {
        clamp_u8(image.components@[0].data@[i] as int)
    } else {
        spec_luma601(image.components@[0].data@[i], image.components@[1].data@[i], image.components@[2].data@[i])
    }
}

/// The number of pixels the histogram reads: the first plane for grayscale, the shortest of
/// the R, G, B planes otherwise, and none when those planes are missing.
pub open spec fn pixel_count(image: Image) -> nat {
    if image.colorspace == ColorSpace::Gray {
        if image.components@.len() >= 1 { image.components@[0].data@.len() } else { 0 }
    } else if image.components@.len() >= 3 {
        let a = image.components@[0].data@.len();
        let b = image.components@[1].data@.len();
        let c = image.components@[2].data@.len();
        if a <= b && a <= c { a } else if b <= c { b } else { c }
    } else {
        0
    }
}

/// How many of the first `n` pixels fall in luma bin `v`.
pub open spec fn bin_count(image: Image, n: nat, v: int) -> nat
    decreases n,
{
    if n == 0 { 0 } else { bin_count(image, (n - 1) as nat, v) + if pixel_bin(image, n - 1) == v { 1nat } else { 0nat } }
}

/// The summed chroma spread of the first `n` pixels of an R, G, B image.
pub open spec fn spread_sum(image: Image, n: nat) -> nat
    decreases n,
{
    if n == 0 {
        0
    } else {
        let i = n - 1;
        (spread_sum(image, (n - 1) as nat) + spec_chroma_spread(image.components@[0].data@[i],
            image.components@[1].data@[i], image.components@[2].data@[i])) as nat
    }
}

/// The integer statistics of one pass over an image's pixels: the 256-bin luma histogram, the
/// summed chroma spread and the pixel count.
#[derive(Debug, Clone)]
pub struct LumaHistogram {
    pub bins: Vec<u64>,
    pub chroma_spread_sum: u64,
    pub count: u64,
}

proof fn lemma_spread_bounds(r: i32, g: i32, b: i32)
    ensures
        0 <= spec_chroma_spread(r, g, b) <= 255,
{
}

proof fn lemma_bin_count_le(image: Image, n: nat, v: int)
    ensures
        bin_count(image, n, v) <= n,
    decreases n,
{
    if n > 0 {
        lemma_bin_count_le(image, (n - 1) as nat, v);
    }
}

proof fn lemma_spread_sum_le(image: Image, n: nat)
    requires
        image.components@.len() >= 3,
        n <= image.components@[0].data@.len(),
        n <= image.components@[1].data@.len(),
        n <= image.components@[2].data@.len(),
    ensures
        spread_sum(image, n) <= 255 * n,
    decreases n,
{
    if n > 0 {
        let i = n - 1;
        lemma_spread_sum_le(image, (n - 1) as nat);
        lemma_spread_bounds(image.components@[0].data@[i], image.components@[1].data@[i], image.components@[2].data@[i]);
    }
}

/// Reads the luma histogram of an image in one pass: the clamped samples of the first plane for
/// grayscale, the BT.601 luma of the R, G, B planes otherwise (with their chroma spread).
pub fn luma_histogram(image: &Image) -> (h: LumaHistogram)
    requires
        255 * pixel_count(*image) <= u64::MAX,
    ensures
        h.count == pixel_count(*image),
        h.bins@.len() == 256,
        forall|v: int| 0 <= v < 256 ==> #[trigger] h.bins@[v] == bin_count(*image, pixel_count(*image), v),
        image.colorspace != ColorSpace::Gray ==> h.chroma_spread_sum == spread_sum(*image, pixel_count(*image)),
        image.colorspace == ColorSpace::Gray ==> h.chroma_spread_sum == 0,
{
    let mut bins: Vec<u64> = Vec::new();
    let mut v: usize = 0;
    while v < 256
        invariant
            v <= 256,
            bins@.len() == v,
            forall|j: int| 0 <= j < v ==> #[trigger] bins@[j] == 0,
        decreases 256 - v,
    {
        bins.push(0);
        v = v + 1;
    }
    let gray = image.colorspace == ColorSpace::Gray;
    let n: usize = if gray {
        if image.components.len() >= 1 { image.components[0].data.len() } else { 0 }
    } else if image.components.len() >= 3 {
        let a = image.components[0].data.len();
        let b = image.components[1].data.len();
        let c = image.components[2].data.len();
        if a <= b && a <= c { a } else if b <= c { b } else { c }
    } else {
        0
    };
    let mut spread: u64 = 0;
    let mut i: usize = 0;
    while i < n
        invariant
            n == pixel_count(*image),
            255 * n <= u64::MAX,
            gray == (image.colorspace == ColorSpace::Gray),
            gray ==> n > 0 ==> image.components@.len() >= 1 && n == image.components@[0].data@.len(),
            !gray ==> n > 0 ==> image.components@.len() >= 3 && n <= image.components@[0].data@.len()
                && n <= image.components@[1].data@.len() && n <= image.components@[2].data@.len(),
            i <= n,
            bins@.len() == 256,
            forall|j: int| 0 <= j < 256 ==> #[trigger] bins@[j] == bin_count(*image, i as nat, j),
            !gray ==> spread == spread_sum(*image, i as nat),
            gray ==> spread == 0,
        decreases n - i,
    {
        let bin: usize = if gray {
            let s = image.components[0].data[i];
            if s < 0 { 0 } else if s > 255 { 255 } else { s as usize }
        } else {
            luma601(image.components[0].data[i], image.components[1].data[i], image.components[2].data[i])
        };
        proof {
            lemma_bin_count_le(*image, i as nat, bin as int);
        }
        assert(bin as int == pixel_bin(*image, i as int));
        let old_count = bins[bin];
        bins.set(bin, old_count + 1);
        if !gray {
            let r = image.components[0].data[i];
            let g = image.components[1].data[i];
            let b = image.components[2].data[i];
            let mx = if r >= g && r >= b { r } else if g >= b { g } else { b };
            let mn = if r <= g && r <= b { r } else if g <= b { g } else { b };
            let mxc: i32 = if mx < 0 { 0 } else if mx > 255 { 255 } else { mx };
            let mnc: i32 = if mn < 0 { 0 } else if mn > 255 { 255 } else { mn };
            proof {
                lemma_spread_sum_le(*image, i as nat);
                lemma_spread_bounds(r, g, b);
            }
            assert(mxc - mnc == spec_chroma_spread(r, g, b));
            spread = spread + (mxc - mnc) as u64;
        }
        proof {
            assert forall|j: int| 0 <= j < 256 implies #[trigger] bins@[j] == bin_count(*image, (i + 1) as nat, j) by {}
        }
        i = i + 1;
    }
    LumaHistogram { bins, chroma_spread_sum: spread, count: n as u64 }
}

} // verus!

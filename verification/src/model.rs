//! The image model shared by the encoder and the decoder.
use vstd::prelude::*;
use crate::error::{Jp2LamError, Result, invalid_input};
use crate::text::{append_decimal, decimal, with_decimal};

verus! {

/// Colour model of an image.
#[derive(Debug, Clone, Copy, PartialEq, Eq, Structural)]
pub enum ColorSpace {
    Gray,
    Rgb,
    Srgb,
    Yuv,
    YCbCr,
}

impl ColorSpace {
    pub open spec fn spec_encoding_domain(self) -> ColorSpace {
        match self {
            ColorSpace::Gray => ColorSpace::Gray,
            _ => ColorSpace::Srgb,
        }
    }

    pub open spec fn spec_component_count(self) -> usize {
        match self {
            ColorSpace::Gray => 1,
            _ => 3,
        }
    }

    /// The colour model the codestream is written in: grayscale stays
    /// grayscale, every RGB-family model is coded as sRGB.
    pub fn encoding_domain(self) -> (c: ColorSpace)
        ensures
            c == self.spec_encoding_domain(),
    {
        match self {
            ColorSpace::Gray => ColorSpace::Gray,
            ColorSpace::Rgb | ColorSpace::Srgb | ColorSpace::Yuv | ColorSpace::YCbCr => ColorSpace::Srgb,
        }
    }

    /// Number of components an image of this colour model carries.
    pub fn component_count(self) -> (n: usize)
        ensures
            n == self.spec_component_count(),
    {
        match self {
            ColorSpace::Gray => 1,
            ColorSpace::Rgb | ColorSpace::Srgb | ColorSpace::Yuv | ColorSpace::YCbCr => 3,
        }
    }
}

/// Container of the encoded output.
#[derive(Debug, Clone, Copy, PartialEq, Eq, Structural)]
pub enum OutputFormat {
    Jp2,
    J2k,
}

/// Named preset for convenience construction of [`EncodeOptions`].
#[derive(Debug, Clone, Copy, PartialEq, Eq, Structural)]
pub enum Preset {
    /// Scanned book pages destined for a PDF — compressed but fully readable.
    DocumentLow,
    /// Scanned book pages destined for a PDF — high fidelity, near-archival.
    DocumentHigh,
    /// Web-derived images destined for a PDF — compact.
    WebLow,
    /// Web-derived images destined for a PDF — crisp.
    WebHigh,
}

impl Preset {
    pub open spec fn spec_quality(self) -> u8 {
        match self {
            Preset::DocumentLow => 30,
            Preset::DocumentHigh => 85,
            Preset::WebLow => 42,
            Preset::WebHigh => 62,
        }
    }

    /// Quality value (0–100) associated with this preset.
    pub fn quality(self) -> (q: u8)
        ensures
            q == self.spec_quality(),
    {
        match self {
            Preset::DocumentLow => 30,
            Preset::DocumentHigh => 85,
            Preset::WebLow => 42,
            Preset::WebHigh => 62,
        }
    }
}

/// One image component (a plane of samples).
#[derive(Debug, Clone)]
pub struct Component {
    pub data: Vec<i32>,
    pub width: u32,
    pub height: u32,
    pub precision: u32,
    pub signed: bool,
    pub dx: u32,
    pub dy: u32,
}

/// An image: its size, its components and its colour model.
#[derive(Debug, Clone)]
pub struct Image {
    pub width: u32,
    pub height: u32,
    pub components: Vec<Component>,
    pub colorspace: ColorSpace,
}

/// A full-size, unsigned 8-bit component holding `data`.
pub open spec fn is_plain_u8_component(c: Component, data: Seq<i32>, width: u32, height: u32) -> bool {
    &&& c.data@ == data
    &&& c.width == width
    &&& c.height == height
    &&& c.precision == 8
    &&& !c.signed
    &&& c.dx == 1
    &&& c.dy == 1
}

/// The product of two `u32` values fits in a `u64`.
pub proof fn lemma_u32_product_fits(a: u32, b: u32)
    ensures
        (a as int) * (b as int) <= u64::MAX,
        (a as int) * (b as int) >= 0,
{
    assert((a as int) * (b as int) <= 0xffff_ffff * 0xffff_ffff) by (nonlinear_arith)
        requires a <= 0xffff_ffff, b <= 0xffff_ffff, a >= 0, b >= 0;
    assert((a as int) * (b as int) >= 0) by (nonlinear_arith) requires a >= 0, b >= 0;
}

fn make_component(data: Vec<i32>, width: u32, height: u32) -> (c: Component)
    ensures
        is_plain_u8_component(c, data@, width, height),
{
    Component { data, width, height, precision: 8, signed: false, dx: 1, dy: 1 }
}

/// The samples of channel `channel` (of `stride` interleaved channels) in `bytes`.
pub open spec fn channel_samples(bytes: Seq<u8>, stride: int, channel: int) -> Seq<i32> {
    Seq::new((bytes.len() as int / stride) as nat, |i: int| bytes[stride * i + channel] as i32)
}


/// The refusal of a buffer whose length is not the image's sample count: `kind` names the
/// buffer, then its length, the image's size and the length it needed.
pub open spec fn length_message(kind: Seq<char>, len: nat, width: nat, height: nat, rgb: bool) -> Seq<char> {
    kind + decimal(len) + " does not match "@ + decimal(width) + "\u{d7}"@ + decimal(height)
        + (if rgb { "\u{d7}3"@ } else { ""@ }) + "="@ + decimal(width * height * (if rgb { 3nat } else { 1nat }))
}

fn length_mismatch(kind: &str, len: usize, width: u32, height: u32, rgb: bool, expected: u64) -> (e: Jp2LamError)
    requires
        expected == width * height * (if rgb { 3nat } else { 1nat }),
    ensures
        e is InvalidInput,
        e.spec_message() == length_message(kind@, len as nat, width as nat, height as nat, rgb),
{
    let mut msg = with_decimal(kind, len as u64, " does not match ");
    append_decimal(&mut msg, width as u64);
    msg.append("\u{d7}");
    append_decimal(&mut msg, height as u64);
    if rgb {
        msg.append("\u{d7}3");
    } else {
        msg.append("");
    }
    msg.append("=");
    append_decimal(&mut msg, expected);
    Jp2LamError::InvalidInput(msg)
}

/// Channel `channel` of bytes interleaved `stride` to a pixel holds, for pixel `i`, byte
/// `stride * i + channel`: with R-G-B bytes, channel 0 is red, 1 green and 2 blue.
pub proof fn lemma_channel_samples_pick(bytes: Seq<u8>, stride: int, channel: int, i: int)
    requires
        1 <= stride,
        0 <= channel < stride,
        0 <= i,
        stride * i + stride <= bytes.len(),
    ensures
        i < channel_samples(bytes, stride, channel).len(),
        channel_samples(bytes, stride, channel)[i] == bytes[stride * i + channel] as i32,
{
    let n = bytes.len() as int;
    assert(i < n / stride) by (nonlinear_arith)
        requires 1 <= stride, 0 <= i, stride * i + stride <= n;
}

impl Image {
    /// Construct from interleaved sRGB bytes (3 bytes per pixel, R-G-B order).
    ///
    /// `data.len()` must equal `width * height * 3`.
    pub fn from_rgb_bytes(width: u32, height: u32, data: &[u8]) -> (res: Result<Image>)
        ensures
            res is Ok <==> data@.len() == width * height * 3,
            res matches Ok(img) ==> {
                &&& img.width == width
                &&& img.height == height
                &&& img.colorspace == ColorSpace::Srgb
                &&& img.components@.len() == 3
                &&& is_plain_u8_component(img.components@[0], channel_samples(data@, 3, 0), width, height)
                &&& is_plain_u8_component(img.components@[1], channel_samples(data@, 3, 1), width, height)
                &&& is_plain_u8_component(img.components@[2], channel_samples(data@, 3, 2), width, height)
            },
            res matches Ok(img) ==> forall|i: int, k: int| 0 <= i < width * height && 0 <= k < 3
                ==> #[trigger] img.components@[k].data@[i] == data@[3 * i + k] as i32,
            res matches Err(e) ==> e is InvalidInput,
            width * height * 3 <= u64::MAX ==> (res matches Err(e) ==> e.spec_message()
                == length_message("RGB buffer length "@, data@.len(), width as nat, height as nat, true)),
    {
        proof { lemma_u32_product_fits(width, height); }
        let wh = (width as u64) * (height as u64);
        if wh > (usize::MAX / 3) as u64 || data.len() != (wh as usize) * 3 {
            if wh <= u64::MAX / 3 {
                return Err(length_mismatch("RGB buffer length ", data.len(), width, height, true, wh * 3));
            }
            let msg = with_decimal("RGB buffer length ", data.len() as u64, " does not match the image size");
            return Err(Jp2LamError::InvalidInput(msg));
        }
        let len = data.len();
        let n = len / 3;
        let mut r: Vec<i32> = Vec::new();
        let mut g: Vec<i32> = Vec::new();
        let mut b: Vec<i32> = Vec::new();
        let mut i: usize = 0;
        while i < n
            invariant
                n == data@.len() / 3,
                len == data@.len(),
                len == 3 * n,
                i <= n,
                r@ =~= channel_samples(data@, 3, 0).take(i as int),
                g@ =~= channel_samples(data@, 3, 1).take(i as int),
                b@ =~= channel_samples(data@, 3, 2).take(i as int),
            decreases n - i,
        {
            assert(3 * i + 2 < 3 * n) by (nonlinear_arith) requires i < n;
            r.push(data[3 * i] as i32);
            g.push(data[3 * i + 1] as i32);
            b.push(data[3 * i + 2] as i32);
            i += 1;
        }
        assert(channel_samples(data@, 3, 0).take(n as int) =~= channel_samples(data@, 3, 0));
        assert(channel_samples(data@, 3, 1).take(n as int) =~= channel_samples(data@, 3, 1));
        assert(channel_samples(data@, 3, 2).take(n as int) =~= channel_samples(data@, 3, 2));
        let mut components: Vec<Component> = Vec::new();
        components.push(make_component(r, width, height));
        components.push(make_component(g, width, height));
        components.push(make_component(b, width, height));
        let img = Image { width, height, components, colorspace: ColorSpace::Srgb };
        proof {
            assert forall|i: int, k: int| 0 <= i < width * height && 0 <= k < 3
                implies #[trigger] img.components@[k].data@[i] == data@[3 * i + k] as i32 by {
                assert(3 * i + 3 <= data@.len()) by (nonlinear_arith)
                    requires i < width * height, data@.len() == width * height * 3;
                lemma_channel_samples_pick(data@, 3, k, i);
            }
        }
        Ok(img)
    }

    /// Construct from grayscale bytes (1 byte per pixel).
    ///
    /// `data.len()` must equal `width * height`.
    pub fn from_gray_bytes(width: u32, height: u32, data: &[u8]) -> (res: Result<Image>)
        ensures
            res is Ok <==> data@.len() == width * height,
            res matches Ok(img) ==> {
                &&& img.width == width
                &&& img.height == height
                &&& img.colorspace == ColorSpace::Gray
                &&& img.components@.len() == 1
                &&& is_plain_u8_component(img.components@[0], channel_samples(data@, 1, 0), width, height)
            },
            res matches Ok(img) ==> forall|i: int| 0 <= i < width * height
                ==> #[trigger] img.components@[0].data@[i] == data@[i] as i32,
            res matches Err(e) ==> e is InvalidInput,
            res matches Err(e) ==> e.spec_message()
                == length_message("Gray buffer length "@, data@.len(), width as nat, height as nat, false),
    {
        proof { lemma_u32_product_fits(width, height); }
        let wh = (width as u64) * (height as u64);
        if wh > usize::MAX as u64 || data.len() != wh as usize {
            return Err(length_mismatch("Gray buffer length ", data.len(), width, height, false, wh));
        }
        let mut samples: Vec<i32> = Vec::new();
        let mut i: usize = 0;
        while i < data.len()
            invariant
                i <= data@.len(),
                samples@ =~= channel_samples(data@, 1, 0).take(i as int),
            decreases data@.len() - i,
        {
            samples.push(data[i] as i32);
            i += 1;
        }
        assert(channel_samples(data@, 1, 0).take(data@.len() as int) =~= channel_samples(data@, 1, 0));
        let mut components: Vec<Component> = Vec::new();
        components.push(make_component(samples, width, height));
        let img = Image { width, height, components, colorspace: ColorSpace::Gray };
        proof {
            assert forall|i: int| 0 <= i < width * height
                implies #[trigger] img.components@[0].data@[i] == data@[i] as i32 by {
                lemma_channel_samples_pick(data@, 1, 0, i);
            }
        }
        Ok(img)
    }
}

/// Encoder settings.
#[derive(Debug, Clone)]
pub struct EncodeOptions {
    /// Quality 0–100. 100 = lossless (reversible 5/3 wavelet, no rate cap).
    /// Values below 100 use the irreversible 9/7 wavelet with lossy compression.
    pub quality: u8,
    pub format: OutputFormat,
}

impl EncodeOptions {
    /// Convenience constructor from a named preset.
    pub fn from_preset(preset: Preset, format: OutputFormat) -> (o: EncodeOptions)
        ensures
            o.quality == preset.spec_quality(),
            o.format == format,
    {
        EncodeOptions { quality: preset.quality(), format }
    }
}

impl Default for EncodeOptions {
    fn default() -> (o: EncodeOptions)
        ensures
            o.quality == 85,
            o.format == OutputFormat::Jp2,
    {
        EncodeOptions { quality: Preset::DocumentHigh.quality(), format: OutputFormat::Jp2 }
    }
}

} // verus!

//! The encoder's context: the plan, and the sample planes prepared for coding (RGB-family
//! planes as given, YUV-family planes converted to RGB).
use vstd::prelude::*;
use vstd::wrapping::i32_specs::{wrapping_add, wrapping_mul, wrapping_sub};
use crate::error::Result;
use crate::model::{ColorSpace, EncodeOptions, Image};
use crate::plan::{EncodingPlan, plan_issue, plan_matches};

verus! {

/// A value clamped to `0..=255`.
pub open spec fn clamp255(v: i32) -> i32 {
    if v < 0 { 0 } else if v > 255 { 255 } else { v }
}

/// The R, G, B of a full-range BT.601 Y, Cb, Cr sample, in 16-bit fixed point with 32-bit
/// wrapping arithmetic, each clamped to `0..=255`.
pub open spec fn ycc_to_rgb(y: i32, u: i32, v: i32) -> (i32, i32, i32) {
    let d = wrapping_sub(u, 128);
    let e = wrapping_sub(v, 128);
    let r = wrapping_add(y, wrapping_mul(91881, e) >> 16i32);
    let g = wrapping_sub(y, wrapping_add(wrapping_mul(22554, d), wrapping_mul(46802, e)) >> 16i32);
    let b = wrapping_add(y, wrapping_mul(116130, d) >> 16i32);
    (clamp255(r), clamp255(g), clamp255(b))
}

/// The planes the encoder codes for an image: the components' samples for the RGB family and
/// grayscale; for the YUV family, the R, G and B converted from the first three planes over
/// their common length.
pub open spec fn prepared_planes(image: Image) -> Seq<Seq<i32>> {
    match image.colorspace {
        ColorSpace::Yuv | ColorSpace::YCbCr => {
            let y = image.components@[0].data@;
            let u = image.components@[1].data@;
            let v = image.components@[2].data@;
            let n = if y.len() <= u.len() && y.len() <= v.len() { y.len() } else if u.len() <= v.len() { u.len() } else { v.len() };
            seq![
                Seq::new(n, |i: int| ycc_to_rgb(y[i], u[i], v[i]).0),
                Seq::new(n, |i: int| ycc_to_rgb(y[i], u[i], v[i]).1),
                Seq::new(n, |i: int| ycc_to_rgb(y[i], u[i], v[i]).2),
            ]
        },
        _ => Seq::new(image.components@.len(), |k: int| image.components@[k].data@),
    }
}

/// The encoder's context: the image, its plan, and the planes to code.
pub struct EncodeContext<'a> {
    pub image: &'a Image,
    pub plan: EncodingPlan,
    pub prepared_components: Vec<Vec<i32>>,
}

impl<'a> EncodeContext<'a> {
    /// The planes to code.
    pub open spec fn planes(self) -> Seq<Seq<i32>> {
        Seq::new(self.prepared_components@.len(), |k: int| self.prepared_components@[k]@)
    }

    /// Plans the encoding of `image` and prepares its planes.
    pub fn new(image: &'a Image, options: &EncodeOptions) -> (r: Result<EncodeContext<'a>>)
        ensures
            r is Ok <==> !plan_issue(*image, *options),
            r matches Ok(c) ==> c.image == image && plan_matches(c.plan, *image, *options)
                && c.planes() == prepared_planes(*image),
            r matches Err(e) ==> e is InvalidInput,
    {
        let plan = EncodingPlan::build(image, options)?;
        let prepared_components = prepare_components(image);
        let c = EncodeContext { image, plan, prepared_components };
        assert(c.planes() =~= prepared_planes(*image));
        Ok(c)
    }

    /// The prepared plane of component `index`, if there is one.
    pub fn component_data(&self, index: usize) -> (r: Option<&[i32]>)
        ensures
            r is Some <==> index < self.planes().len(),
            r matches Some(s) ==> s@ == self.planes()[index as int],
    {
        if index < self.prepared_components.len() {
            Some(self.prepared_components[index].as_slice())
        } else {
            None
        }
    }
}

/// A copy of the samples.
fn copy_plane(samples: &Vec<i32>) -> (r: Vec<i32>)
    ensures
        r@ == samples@,
{
    let mut out: Vec<i32> = Vec::new();
    let mut i: usize = 0;
    while i < samples.len()
        invariant
            i <= samples@.len(),
            out@ == samples@.subrange(0, i as int),
        decreases samples@.len() - i,
    {
        out.push(samples[i]);
        i = i + 1;
        assert(out@ =~= samples@.subrange(0, i as int));
    }
    assert(samples@.subrange(0, samples@.len() as int) =~= samples@);
    out
}

/// The R, G, B of one Y, Cb, Cr sample.
fn ycc_sample_to_rgb(y: i32, u: i32, v: i32) -> (t: (i32, i32, i32))
    ensures
        t == ycc_to_rgb(y, u, v),
{
    let d = u.wrapping_sub(128);
    let e = v.wrapping_sub(128);
    let r = y.wrapping_add(91881i32.wrapping_mul(e) >> 16i32);
    let g = y.wrapping_sub(22554i32.wrapping_mul(d).wrapping_add(46802i32.wrapping_mul(e)) >> 16i32);
    let b = y.wrapping_add(116130i32.wrapping_mul(d) >> 16i32);
    let r: i32 = if r < 0 { 0 } else if r > 255 { 255 } else { r };
    let g: i32 = if g < 0 { 0 } else if g > 255 { 255 } else { g };
    let b: i32 = if b < 0 { 0 } else if b > 255 { 255 } else { b };
    (r, g, b)
}

/// Prepares the planes to code.
fn prepare_components(image: &Image) -> (r: Vec<Vec<i32>>)
    requires
        image.colorspace is Yuv || image.colorspace is YCbCr ==> image.components@.len() >= 3,
    ensures
        Seq::new(r@.len(), |k: int| r@[k]@) == prepared_planes(*image),
{
    match image.colorspace {
        ColorSpace::Yuv | ColorSpace::YCbCr => {
            let y = &image.components[0].data;
            let u = &image.components[1].data;
            let v = &image.components[2].data;
            let n = if y.len() <= u.len() && y.len() <= v.len() { y.len() } else if u.len() <= v.len() { u.len() } else { v.len() };
            let mut rs: Vec<i32> = Vec::new();
            let mut gs: Vec<i32> = Vec::new();
            let mut bs: Vec<i32> = Vec::new();
            let mut i: usize = 0;
            while i < n
                invariant
                    n <= y@.len(),
                    n <= u@.len(),
                    n <= v@.len(),
                    i <= n,
                    rs@.len() == i,
                    gs@.len() == i,
                    bs@.len() == i,
                    forall|j: int| 0 <= j < i ==> #[trigger] rs@[j] == ycc_to_rgb(y@[j], u@[j], v@[j]).0,
                    forall|j: int| 0 <= j < i ==> #[trigger] gs@[j] == ycc_to_rgb(y@[j], u@[j], v@[j]).1,
                    forall|j: int| 0 <= j < i ==> #[trigger] bs@[j] == ycc_to_rgb(y@[j], u@[j], v@[j]).2,
                decreases n - i,
            {
                let (r, g, b) = ycc_sample_to_rgb(y[i], u[i], v[i]);
                rs.push(r);
                gs.push(g);
                bs.push(b);
                i = i + 1;
            }
            let mut out: Vec<Vec<i32>> = Vec::new();
            out.push(rs);
            out.push(gs);
            out.push(bs);
            let ghost ys = image.components@[0].data@;
            let ghost us = image.components@[1].data@;
            let ghost vs = image.components@[2].data@;
            assert(rs@ =~= Seq::new(n as nat, |i: int| ycc_to_rgb(ys[i], us[i], vs[i]).0));
            assert(gs@ =~= Seq::new(n as nat, |i: int| ycc_to_rgb(ys[i], us[i], vs[i]).1));
            assert(bs@ =~= Seq::new(n as nat, |i: int| ycc_to_rgb(ys[i], us[i], vs[i]).2));
            assert(Seq::new(out@.len(), |k: int| out@[k]@) =~= prepared_planes(*image));
            out
        },
        _ => {
            let mut out: Vec<Vec<i32>> = Vec::new();
            let mut k: usize = 0;
            while k < image.components.len()
                invariant
                    k <= image.components@.len(),
                    out@.len() == k,
                    forall|j: int| 0 <= j < k ==> (#[trigger] out@[j])@ == image.components@[j].data@,
                decreases image.components@.len() - k,
            {
                out.push(copy_plane(&image.components[k].data));
                k = k + 1;
            }
            assert(Seq::new(out@.len(), |k: int| out@[k]@) =~= prepared_planes(*image));
            out
        },
    }
}

} // verus!

//! The lossless encoder: DC shift and reversible colour transform, the forward 5/3 transform,
//! code-blocks coded by Tier-1, packets by Tier-2, and the codestream with its main header, in a
//! JP2 file or raw.
use vstd::prelude::*;
use vstd::wrapping::i32_specs::{wrapping_add, wrapping_mul, wrapping_sub};
use crate::codestream::codestream_spec;
use crate::codestream_write::{CodestreamParts, TilePart};
use crate::context::{EncodeContext, prepared_planes};
use crate::decode_markers::WaveletTransform;
use crate::dwt53::{dwt_forward, dwt_inverse, forward_53_2d_in_place, lemma_dwt_forward_len, lemma_dwt_roundtrip};
use crate::rct::{lemma_rct_roundtrip, rct_forward};
use crate::reconstruct::{final_sample, finalize_spec, rct_plane};
use crate::error::{Result, encode_failed, unsupported};
use crate::jp2_write::{jp2_spec, wrap_codestream};
use crate::markers::build_main_header_segments;
use crate::model::{EncodeOptions, Image, OutputFormat};
use crate::plan::{EncodingPlan, plan_issue, plan_matches};
use crate::plan_types::TilePartHeader;
use crate::t1_encode::{EncodedCodeBlock, bit_length, encode_codeblock, max_abs, pass_count, passes_form_segment, t1_codeword};
use crate::t2_decode::{BandRect, build_band_rects, grid_dims, split_blocks};
use crate::codestream_write::TilePartPayload;
use crate::t2_encode::{EncodedBand, EncodedComponent, NativePacketSequence, build_packet_sequence_for_components, build_tile_part_payload_for_components};
use crate::t2_encode::{components_ok, packet_sequence_spec, packet_views, payload_packets_spec};
use crate::codestream_write::{parts_spec, views};
use crate::markers::{cod_spec, qcd_spec, siz_spec};

verus! {

/// The DC-shifted sample: `s - 128`, in 32-bit wrapping arithmetic.
pub open spec fn dc_shift(s: i32) -> i32 {
    wrapping_sub(s, 128)
}

/// Component `k` of the reversible colour transform of DC-shifted R, G, B samples, in 32-bit
/// wrapping arithmetic: Y = (R + 2G + B) >> 2, Db = B - G, Dr = R - G.
pub open spec fn rct_component(r: i32, g: i32, b: i32, k: int) -> i32 {
    let rv = dc_shift(r);
    let gv = dc_shift(g);
    let bv = dc_shift(b);
    if k == 0 {
        wrapping_add(wrapping_add(rv, wrapping_mul(2, gv)), bv) >> 2i32
    } else if k == 1 {
        wrapping_sub(bv, gv)
    } else {
        wrapping_sub(rv, gv)
    }
}

/// The samples of component `k` that the reversible transform codes: DC-shifted, and taken
/// through the reversible colour transform when the plan asks for it.
pub open spec fn reversible_input(planes: Seq<Seq<i32>>, use_mct: bool, k: int) -> Seq<i32> {
    if use_mct {
        let r = planes[0];
        let g = planes[1];
        let b = planes[2];
        Seq::new(r.len(), |i: int| rct_component(r[i], g[i], b[i], k))
    } else {
        Seq::new(planes[k].len(), |i: int| dc_shift(planes[k][i]))
    }
}

/// When the reversible input of component `k` can be formed.
pub open spec fn reversible_input_ok(plan: EncodingPlan, planes: Seq<Seq<i32>>, k: int) -> bool {
    if plan.use_mct {
        &&& plan.component_count == 3
        &&& planes.len() >= 3
        &&& planes[0].len() == planes[1].len()
        &&& planes[0].len() == planes[2].len()
        &&& 0 <= k < 3
    } else {
        0 <= k < planes.len()
    }
}

/// Component `k` after the forward and the inverse 5/3 transform.
pub open spec fn transform_coded(planes: Seq<Seq<i32>>, use_mct: bool, w: nat, h: nat, levels: nat, k: int) -> Seq<i32> {
    dwt_inverse(dwt_forward(reversible_input(planes, use_mct, k), w, h, levels), w, h, levels)
}

/// Component `k` as the decoder restores it from those coefficients: after the inverse colour
/// transform when it was applied, the inverse DC shift and the clamping to 8 bits.
pub open spec fn transform_restored(planes: Seq<Seq<i32>>, use_mct: bool, w: nat, h: nat, levels: nat, k: int) -> Seq<i32> {
    if use_mct {
        finalize_spec(rct_plane(
            transform_coded(planes, use_mct, w, h, levels, 0),
            transform_coded(planes, use_mct, w, h, levels, 1),
            transform_coded(planes, use_mct, w, h, levels, 2),
            k,
        ))
    } else {
        finalize_spec(transform_coded(planes, use_mct, w, h, levels, k))
    }
}

/// The planes are 8-bit samples of a `w` by `h` image.
pub open spec fn planes_8bit(planes: Seq<Seq<i32>>, w: nat, h: nat) -> bool {
    &&& forall|k: int| 0 <= k < planes.len() ==> (#[trigger] planes[k]).len() == w * h
    &&& forall|k: int, i: int| 0 <= k < planes.len() && 0 <= i < planes[k].len() ==> 0 <= #[trigger] planes[k][i] <= 255
}

proof fn lemma_dc_shift_back(s: i32)
    requires
        0 <= s <= 255,
    ensures
        dc_shift(s) == s - 128,
        final_sample(dc_shift(s)) == s,
{
}

proof fn lemma_rct_sample_back(r: i32, g: i32, b: i32)
    requires
        0 <= r <= 255,
        0 <= g <= 255,
        0 <= b <= 255,
    ensures
        ({
            let t = crate::rct::rct_inverse(rct_component(r, g, b, 0), rct_component(r, g, b, 1), rct_component(r, g, b, 2));
            final_sample(t.0) == r && final_sample(t.1) == g && final_sample(t.2) == b
        }),
{
    let (rv, gv, bv) = (dc_shift(r), dc_shift(g), dc_shift(b));
    assert(rct_component(r, g, b, 0) == rct_forward(rv, gv, bv).0);
    assert(rct_component(r, g, b, 1) == rct_forward(rv, gv, bv).1);
    assert(rct_component(r, g, b, 2) == rct_forward(rv, gv, bv).2);
    lemma_rct_roundtrip(rv, gv, bv);
}

/// The decoder's sample reconstruction undoes the encoder's sample transform: from the
/// coefficients of 8-bit planes (DC shift, the reversible colour transform when there are
/// three planes to take through it, and the forward 5/3 transform at any number of levels),
/// the inverse 5/3 transform, the inverse colour transform and the inverse DC shift give back
/// every sample exactly.
pub proof fn lemma_sample_transform_roundtrip(planes: Seq<Seq<i32>>, use_mct: bool, w: nat, h: nat, levels: nat)
    requires
        planes_8bit(planes, w, h),
        use_mct ==> planes.len() == 3,
    ensures
        forall|k: int| 0 <= k < planes.len() ==> #[trigger] transform_restored(planes, use_mct, w, h, levels, k) == planes[k],
{
    assert forall|j: int| 0 <= j < (if use_mct { 3 } else { planes.len() as int }) implies
        #[trigger] transform_coded(planes, use_mct, w, h, levels, j) == reversible_input(planes, use_mct, j) by {
        assert(planes[0].len() == w * h);
        assert(planes[j].len() == w * h);
        lemma_dwt_roundtrip(reversible_input(planes, use_mct, j), w, h, levels);
    }
    assert forall|k: int| 0 <= k < planes.len() implies #[trigger] transform_restored(planes, use_mct, w, h, levels, k) == planes[k] by {
        let out = transform_restored(planes, use_mct, w, h, levels, k);
        assert(planes[k].len() == w * h);
        if use_mct {
            let c0 = transform_coded(planes, use_mct, w, h, levels, 0);
            let c1 = transform_coded(planes, use_mct, w, h, levels, 1);
            let c2 = transform_coded(planes, use_mct, w, h, levels, 2);
            assert(planes[0].len() == w * h && planes[1].len() == w * h && planes[2].len() == w * h);
            assert forall|i: int| 0 <= i < planes[k].len() implies out[i] == planes[k][i] by {
                let (r, g, b) = (planes[0][i], planes[1][i], planes[2][i]);
                assert(0 <= planes[0][i] <= 255 && 0 <= planes[1][i] <= 255 && 0 <= planes[2][i] <= 255);
                assert(c0[i] == rct_component(r, g, b, 0));
                assert(c1[i] == rct_component(r, g, b, 1));
                assert(c2[i] == rct_component(r, g, b, 2));
                lemma_rct_sample_back(r, g, b);
            }
        } else {
            let c = transform_coded(planes, use_mct, w, h, levels, k);
            assert forall|i: int| 0 <= i < planes[k].len() implies out[i] == planes[k][i] by {
                assert(0 <= planes[k][i] <= 255);
                lemma_dc_shift_back(planes[k][i]);
            }
        }
        assert(out =~= planes[k]);
    }
}

/// The samples the reversible transform codes for component `component_index`.
pub fn reversible_input_component(context: &EncodeContext, component_index: usize) -> (r: Result<Vec<i32>>)
    ensures
        r is Ok <==> reversible_input_ok(context.plan, context.planes(), component_index as int),
        r matches Ok(v) ==> v@ == reversible_input(context.planes(), context.plan.use_mct, component_index as int),
        r matches Err(e) ==> e is EncodeFailed,
{
    if !context.plan.use_mct {
        let source = match context.component_data(component_index) {
            Some(s) => s,
            None => { return Err(encode_failed("missing component samples")); },
        };
        let mut out: Vec<i32> = Vec::new();
        let mut i: usize = 0;
        while i < source.len()
            invariant
                i <= source@.len(),
                out@.len() == i,
                forall|j: int| 0 <= j < i ==> #[trigger] out@[j] == dc_shift(source@[j]),
            decreases source@.len() - i,
        {
            out.push(source[i].wrapping_sub(128));
            i = i + 1;
        }
        assert(out@ =~= reversible_input(context.planes(), false, component_index as int));
        return Ok(out);
    }
    if context.plan.component_count != 3 {
        return Err(encode_failed("reversible MCT requires exactly 3 components"));
    }
    let r = match context.component_data(0) {
        Some(s) => s,
        None => { return Err(encode_failed("missing component 0 samples")); },
    };
    let g = match context.component_data(1) {
        Some(s) => s,
        None => { return Err(encode_failed("missing component 1 samples")); },
    };
    let b = match context.component_data(2) {
        Some(s) => s,
        None => { return Err(encode_failed("missing component 2 samples")); },
    };
    if r.len() != g.len() || r.len() != b.len() {
        return Err(encode_failed("component sample lengths differ for reversible MCT"));
    }
    if component_index > 2 {
        return Err(encode_failed("reversible MCT only supports component index 0..2"));
    }
    let mut out: Vec<i32> = Vec::new();
    let mut i: usize = 0;
    while i < r.len()
        invariant
            i <= r@.len(),
            r@.len() == g@.len(),
            r@.len() == b@.len(),
            component_index <= 2,
            out@.len() == i,
            forall|j: int| 0 <= j < i ==> #[trigger] out@[j] == rct_component(r@[j], g@[j], b@[j], component_index as int),
        decreases r@.len() - i,
    {
        let rv = r[i].wrapping_sub(128);
        let gv = g[i].wrapping_sub(128);
        let bv = b[i].wrapping_sub(128);
        let t = if component_index == 0 {
            rv.wrapping_add(2i32.wrapping_mul(gv)).wrapping_add(bv) >> 2i32
        } else if component_index == 1 {
            bv.wrapping_sub(gv)
        } else {
            rv.wrapping_sub(gv)
        };
        out.push(t);
        i = i + 1;
    }
    assert(out@ =~= reversible_input(context.planes(), true, component_index as int));
    Ok(out)
}

/// The coefficients of the block `[x0, x1) x [y0, y1)` of a `width`-wide plane, row by row.
pub open spec fn block_samples(data: Seq<i32>, width: nat, x0: nat, y0: nat, x1: nat, y1: nat) -> Seq<i32> {
    let bw = (x1 - x0) as nat;
    Seq::new(bw * ((y1 - y0) as nat), |i: int| data[(y0 + i / (bw as int)) * width + x0 + i % (bw as int)])
}

/// Copies the block `[x0, x1) x [y0, y1)` out of a plane.
fn extract_block(data: &Vec<i32>, width: usize, height: usize, x0: u32, y0: u32, x1: u32, y1: u32) -> (r: Vec<i32>)
    requires
        data@.len() == width * height,
        x0 <= x1 <= width,
        y0 <= y1 <= height,
    ensures
        r@ == block_samples(data@, width as nat, x0 as nat, y0 as nat, x1 as nat, y1 as nat),
        r@.len() == ((x1 - x0) as nat) * ((y1 - y0) as nat),
{
    let bw = (x1 - x0) as usize;
    let bh = (y1 - y0) as usize;
    let ghost target = block_samples(data@, width as nat, x0 as nat, y0 as nat, x1 as nat, y1 as nat);
    let len = data.len();
    let mut out: Vec<i32> = Vec::new();
    let mut y: usize = 0;
    while y < bh
        invariant
            data@.len() == width * height,
            x0 <= x1 <= width,
            y0 <= y1 <= height,
            bw == x1 - x0,
            bh == y1 - y0,
            y <= bh,
            len == data@.len(),
            target == block_samples(data@, width as nat, x0 as nat, y0 as nat, x1 as nat, y1 as nat),
            target.len() == bw * bh,
            out@.len() == y * bw,
            forall|i: int| 0 <= i < out@.len() ==> #[trigger] out@[i] == target[i],
        decreases bh - y,
    {
        let row = y0 as usize + y;
        proof {
            assert(row * width + width <= width * height) by (nonlinear_arith) requires row < height;
            assert(y * bw + bw <= bw * bh) by (nonlinear_arith) requires y < bh;
        }
        let mut x: usize = 0;
        while x < bw
            invariant
                data@.len() == width * height,
                x0 <= x1 <= width,
                bw == x1 - x0,
                bh == y1 - y0,
                y < bh,
                row == y0 + y,
                row * width + width <= data@.len(),
                len == data@.len(),
                x <= bw,
                target.len() == bw * bh,
                target == block_samples(data@, width as nat, x0 as nat, y0 as nat, x1 as nat, y1 as nat),
                out@.len() == y * bw + x,
                forall|i: int| 0 <= i < out@.len() ==> #[trigger] out@[i] == target[i],
            decreases bw - x,
        {
            proof {
                let i = y * bw + x;
                assert(i / (bw as int) == y && i % (bw as int) == x) by (nonlinear_arith)
                    requires i == y * bw + x, x < bw;
                assert(y * bw + x < bw * bh) by (nonlinear_arith) requires y < bh, x < bw;
            }
            let ghost i = y * bw + x;
            out.push(data[row * width + x0 as usize + x]);
            assert(out@[i] == target[i]);
            x = x + 1;
        }
        assert(y * bw + bw == (y + 1) * bw) by (nonlinear_arith);
        y = y + 1;
    }
    assert(bh * bw == bw * bh) by (nonlinear_arith);
    assert(out@ =~= target);
    out
}

/// One component's wavelet coefficients, row by row.
#[derive(Debug, Clone, PartialEq, Eq)]
pub struct NativeComponentCoefficients {
    pub width: usize,
    pub height: usize,
    pub levels: u8,
    pub data: Vec<i32>,
}

/// One code-block's rectangle and coefficients.
#[derive(Debug, Clone, PartialEq, Eq)]
pub struct NativeCodeBlock {
    pub x0: u32,
    pub y0: u32,
    pub x1: u32,
    pub y1: u32,
    pub coefficients: Vec<i32>,
}

/// One subband's rectangle and code-blocks.
#[derive(Debug, Clone, PartialEq, Eq)]
pub struct NativeSubband {
    pub resolution: u8,
    pub band: crate::plan_types::BandOrientation,
    pub x0: u32,
    pub y0: u32,
    pub x1: u32,
    pub y1: u32,
    pub codeblocks: Vec<NativeCodeBlock>,
}

/// One component's subbands, LL of the lowest resolution first.
#[derive(Debug, Clone, PartialEq, Eq)]
pub struct NativeComponentLayout {
    pub width: usize,
    pub height: usize,
    pub levels: u8,
    pub subbands: Vec<NativeSubband>,
}

/// The reversible path can take component `k` of `planes` through the forward transform under
/// `plan`: its samples are there, and the plane's area fits and matches their count.
pub open spec fn coefficients_owed(plan: EncodingPlan, planes: Seq<Seq<i32>>, k: int) -> bool {
    &&& plan.transform is Reversible53
    &&& reversible_input_ok(plan, planes, k)
    &&& (plan.width as nat) * (plan.height as nat) <= usize::MAX
    &&& reversible_input(planes, plan.use_mct, k).len() == (plan.width as nat) * (plan.height as nat)
}

/// The coefficients the reversible path codes for component `component_index`: its samples
/// DC-shifted (and colour-transformed), then taken through the forward 5/3 transform.
pub fn prepare_component_coefficients(context: &EncodeContext, component_index: usize) -> (r: Result<NativeComponentCoefficients>)
    ensures
        r matches Ok(c) ==> c.width == context.plan.width && c.height == context.plan.height
            && c.levels == context.plan.decomposition_levels
            && c.data@ == dwt_forward(reversible_input(context.planes(), context.plan.use_mct, component_index as int),
                context.plan.width as nat, context.plan.height as nat, context.plan.decomposition_levels as nat),
        context.plan.transform is Irreversible97 ==> (r matches Err(e) && e is UnsupportedFeature),
        r matches Err(e) ==> e is EncodeFailed || e is UnsupportedFeature,
        context.plan.transform is Reversible53 ==> (r matches Err(e) ==> e is EncodeFailed),
        r is Ok <==> coefficients_owed(context.plan, context.planes(), component_index as int),
{
    if context.plan.transform != WaveletTransform::Reversible53 {
        return Err(unsupported("the 9/7 coefficients are computed in floating point"));
    }
    let mut data = reversible_input_component(context, component_index)?;
    let width = context.plan.width as usize;
    let height = context.plan.height as usize;
    forward_53_2d_in_place(&mut data, width, height, context.plan.decomposition_levels)?;
    Ok(NativeComponentCoefficients { width, height, levels: context.plan.decomposition_levels, data })
}

/// The code-blocks of one subband rectangle of the coefficients.
pub open spec fn blocks_match(blocks: Seq<NativeCodeBlock>, data: Seq<i32>, width: nat, r: BandRect, cbw: nat, cbh: nat) -> bool {
    let cells = crate::t2_decode::grid_blocks(r.x0 as nat, r.x1 as nat, cbw, r.y0 as nat, r.y1 as nat, cbh);
    &&& blocks.len() == cells.len()
    &&& forall|k: int| 0 <= k < blocks.len() ==> {
        let b = #[trigger] blocks[k];
        &&& b.x0 == cells[k].x0 && b.y0 == cells[k].y0 && b.x1 == cells[k].x1 && b.y1 == cells[k].y1
        &&& b.coefficients@ == block_samples(data, width, b.x0 as nat, b.y0 as nat, b.x1 as nat, b.y1 as nat)
    }
}

/// `l` is the layout of a `width` by `height` plane of coefficients `data` at `levels`
/// decomposition levels: its subbands (B.5), each cut into code-blocks of the nominal size.
pub open spec fn layout_matches(l: NativeComponentLayout, width: usize, height: usize, levels: u8, data: Seq<i32>,
    code_block_size: crate::plan_types::CodeBlockSize) -> bool {
    let rects = crate::t2_decode::band_rects(crate::t2_decode::ladder_spec(width as nat, height as nat, levels as nat), levels as nat);
    &&& l.width == width && l.height == height && l.levels == levels
    &&& l.subbands@.len() == rects.len()
    &&& forall|i: int| 0 <= i < rects.len() ==> {
        let b = #[trigger] l.subbands@[i];
        &&& b.resolution == rects[i].resolution && b.band == rects[i].band
        &&& b.x0 == rects[i].x0 && b.y0 == rects[i].y0 && b.x1 == rects[i].x1 && b.y1 == rects[i].y1
        &&& blocks_match(b.codeblocks@, data, width as nat, rects[i], code_block_size.width as nat, code_block_size.height as nat)
    }
}

/// Each halving step leaves a size no larger than the one before.
proof fn lemma_halve_n_steps(v: nat, j: nat, k: nat)
    requires
        j <= k,
    ensures
        crate::t2_decode::halve_n(v, k) <= crate::t2_decode::halve_n(v, j),
    decreases k - j,
{
    if j < k {
        lemma_halve_n_steps(v, j, (k - 1) as nat);
    }
}

/// Every subband rectangle of a `width` by `height` plane lies inside it, with its corners ordered.
proof fn lemma_band_rects_inside(width: u32, height: u32, levels: nat, i: int)
    requires
        0 <= i < 1 + 3 * levels,
    ensures
        ({
            let r = crate::t2_decode::band_rects(crate::t2_decode::ladder_spec(width as nat, height as nat, levels), levels)[i];
            r.x0 <= r.x1 <= width && r.y0 <= r.y1 <= height
        }),
{
    let lad = crate::t2_decode::ladder_spec(width as nat, height as nat, levels);
    assert forall|r: int| 0 <= r <= levels implies (#[trigger] lad[r]).0 <= width && lad[r].1 <= height
        && lad[r].0 == crate::t2_decode::halve_n(width as nat, (levels - r) as nat)
        && lad[r].1 == crate::t2_decode::halve_n(height as nat, (levels - r) as nat) by {
        lemma_halve_n_steps(width as nat, 0, (levels - r) as nat);
        lemma_halve_n_steps(height as nat, 0, (levels - r) as nat);
    }
    if i > 0 {
        let idx = (i - 1) / 3;
        lemma_halve_n_steps(width as nat, (levels - idx - 1) as nat, (levels - idx) as nat);
        lemma_halve_n_steps(height as nat, (levels - idx - 1) as nat, (levels - idx) as nat);
        assert(lad[idx].0 <= lad[idx + 1].0 && lad[idx].1 <= lad[idx + 1].1);
    }
}

/// The cells of one row of code-blocks lie between `x` and `x1`, with their corners ordered.
proof fn lemma_row_cells_inside(x: nat, x1: nat, cbw: nat, y0: nat, y1: nat, k: int)
    requires
        x1 <= u32::MAX,
        y0 <= y1 <= u32::MAX,
        0 <= k < crate::t2_decode::row_blocks(x, x1, cbw, y0, y1).len(),
    ensures
        ({
            let b = crate::t2_decode::row_blocks(x, x1, cbw, y0, y1)[k];
            x <= b.x0 <= b.x1 <= x1 && b.y0 == y0 && b.y1 == y1
        }),
    decreases x1 - x,
{
    if !(x >= x1 || cbw == 0) {
        let e = crate::t2_decode::min_nat(x + cbw, x1);
        if k > 0 {
            lemma_row_cells_inside(e, x1, cbw, y0, y1, k - 1);
        }
    }
}

/// The cells of a grid of code-blocks lie inside its rectangle, with their corners ordered.
proof fn lemma_grid_cells_inside(x0: nat, x1: nat, cbw: nat, y: nat, y1: nat, cbh: nat, k: int)
    requires
        x0 <= x1 <= u32::MAX,
        y1 <= u32::MAX,
        0 <= k < crate::t2_decode::grid_blocks(x0, x1, cbw, y, y1, cbh).len(),
    ensures
        ({
            let b = crate::t2_decode::grid_blocks(x0, x1, cbw, y, y1, cbh)[k];
            x0 <= b.x0 <= b.x1 <= x1 && y <= b.y0 <= b.y1 <= y1
        }),
    decreases y1 - y,
{
    if !(y >= y1 || cbh == 0) {
        let e = crate::t2_decode::min_nat(y + cbh, y1);
        let row = crate::t2_decode::row_blocks(x0, x1, cbw, y, e);
        if k < row.len() {
            lemma_row_cells_inside(x0, x1, cbw, y, e, k);
        } else {
            lemma_grid_cells_inside(x0, x1, cbw, e, y1, cbh, k - row.len());
        }
    }
}

/// Splits the coefficients into subbands (B.5) and each subband into code-blocks of the nominal
/// size from the subband's corner, in raster order.
pub fn build_component_layout(coefficients: &NativeComponentCoefficients, code_block_size: crate::plan_types::CodeBlockSize)
    -> (r: Result<NativeComponentLayout>)
    ensures
        r is Ok ==> code_block_size.width >= 1 && code_block_size.height >= 1,
        r matches Ok(l) ==> layout_matches(l, coefficients.width, coefficients.height, coefficients.levels,
            coefficients.data@, code_block_size),
        r matches Err(e) ==> e is EncodeFailed,
        r is Ok <==> coefficients.width <= u32::MAX && coefficients.height <= u32::MAX
            && coefficients.width * coefficients.height <= usize::MAX
            && coefficients.data@.len() == coefficients.width * coefficients.height
            && code_block_size.width >= 1 && code_block_size.height >= 1,
{
    let width = coefficients.width;
    let height = coefficients.height;
    if width > 0xffff_ffff || height > 0xffff_ffff {
        return Err(encode_failed("component size exceeds 32 bits"));
    }
    let area = match width.checked_mul(height) {
        Some(a) => a,
        None => { return Err(encode_failed("component area exceeds usize")); },
    };
    if coefficients.data.len() != area {
        return Err(encode_failed("coefficient count does not match the component size"));
    }
    let cbw = code_block_size.width;
    let cbh = code_block_size.height;
    if cbw == 0 || cbh == 0 {
        return Err(encode_failed("empty code-block size"));
    }
    let rects = build_band_rects(width as u32, height as u32, coefficients.levels);
    let ghost rs = rects@;
    let mut subbands: Vec<NativeSubband> = Vec::new();
    let mut i: usize = 0;
    while i < rects.len()
        invariant
            rs == rects@,
            rs == crate::t2_decode::band_rects(crate::t2_decode::ladder_spec(width as nat, height as nat,
                coefficients.levels as nat), coefficients.levels as nat),
            width == coefficients.width,
            height == coefficients.height,
            coefficients.data@.len() == width * height,
            cbw == code_block_size.width,
            cbh == code_block_size.height,
            cbw >= 1,
            cbh >= 1,
            width <= 0xffff_ffff,
            height <= 0xffff_ffff,
            i <= rs.len(),
            subbands@.len() == i,
            forall|j: int| 0 <= j < i ==> {
                let b = #[trigger] subbands@[j];
                &&& b.resolution == rs[j].resolution && b.band == rs[j].band
                &&& b.x0 == rs[j].x0 && b.y0 == rs[j].y0 && b.x1 == rs[j].x1 && b.y1 == rs[j].y1
                &&& blocks_match(b.codeblocks@, coefficients.data@, coefficients.width as nat, rs[j], cbw as nat, cbh as nat)
            },
        decreases rs.len() - i,
    {
        let rect: BandRect = rects[i];
        proof { lemma_band_rects_inside(width as u32, height as u32, coefficients.levels as nat, i as int); }
        if rect.x0 > rect.x1 || rect.y0 > rect.y1 || rect.x1 as usize > width || rect.y1 as usize > height {
            return Err(encode_failed("invalid subband rectangle for coefficient layout"));
        }
        let cells = split_blocks(rect.x0, rect.y0, rect.x1, rect.y1, cbw, cbh);
        let ghost cs = cells@;
        let mut blocks: Vec<NativeCodeBlock> = Vec::new();
        let mut k: usize = 0;
        while k < cells.len()
            invariant
                cs == cells@,
                cs == crate::t2_decode::grid_blocks(rect.x0 as nat, rect.x1 as nat, cbw as nat, rect.y0 as nat, rect.y1 as nat, cbh as nat),
                width == coefficients.width,
                height == coefficients.height,
                coefficients.data@.len() == width * height,
                rect.x0 <= rect.x1 <= width,
                rect.y0 <= rect.y1 <= height,
                width <= 0xffff_ffff,
                height <= 0xffff_ffff,
                cbw >= 1,
                cbh >= 1,
                k <= cs.len(),
                blocks@.len() == k,
                forall|j: int| 0 <= j < k ==> {
                    let b = #[trigger] blocks@[j];
                    &&& b.x0 == cs[j].x0 && b.y0 == cs[j].y0 && b.x1 == cs[j].x1 && b.y1 == cs[j].y1
                    &&& b.coefficients@ == block_samples(coefficients.data@, width as nat, b.x0 as nat, b.y0 as nat, b.x1 as nat, b.y1 as nat)
                },
            decreases cs.len() - k,
        {
            let cell = cells[k];
            proof {
                lemma_grid_cells_inside(rect.x0 as nat, rect.x1 as nat, cbw as nat, rect.y0 as nat, rect.y1 as nat,
                    cbh as nat, k as int);
            }
            if cell.x0 > cell.x1 || cell.y0 > cell.y1 || cell.x1 as usize > width || cell.y1 as usize > height {
                return Err(encode_failed("invalid code-block rectangle"));
            }
            let coefs = extract_block(&coefficients.data, width, height, cell.x0, cell.y0, cell.x1, cell.y1);
            blocks.push(NativeCodeBlock { x0: cell.x0, y0: cell.y0, x1: cell.x1, y1: cell.y1, coefficients: coefs });
            k = k + 1;
        }
        subbands.push(NativeSubband {
            resolution: rect.resolution,
            band: rect.band,
            x0: rect.x0,
            y0: rect.y0,
            x1: rect.x1,
            y1: rect.y1,
            codeblocks: blocks,
        });
        i = i + 1;
    }
    Ok(NativeComponentLayout { width, height, levels: coefficients.levels, subbands })
}

/// Code-block `b` is the Tier-1 coding of `cell` of subband `band` with `mb` bit-planes: its
/// rectangle, its magnitude and zero bit-planes, its passes, the segment they form, and its MQ
/// codeword.
pub open spec fn block_coded(b: EncodedCodeBlock, cell: NativeCodeBlock, mb: nat, band: crate::plan_types::BandOrientation) -> bool {
    let m = bit_length(max_abs(cell.coefficients@, cell.coefficients@.len()));
    &&& b.x0 == cell.x0 && b.y0 == cell.y0 && b.x1 == cell.x1 && b.y1 == cell.y1
    &&& b.magnitude_bitplanes == m
    &&& b.zero_bitplanes == (if m <= mb { mb - m } else { 0 })
    &&& b.passes@.len() == pass_count(m)
    &&& passes_form_segment(b.passes@, b.data@)
    &&& b.data@ == t1_codeword(cell.coefficients@, (cell.x1 - cell.x0) as nat, (cell.y1 - cell.y0) as nat, band)
}

/// The bit-planes of subband `i`: the guard bits less one plus its exponent.
pub open spec fn subband_bitplanes(plan: EncodingPlan, i: int) -> nat {
    ((if plan.guard_bits >= 1 { plan.guard_bits - 1 } else { 0 }) + plan.subband_quants@[i].exponent) as nat
}

/// `e` is the Tier-1 coding of `layout` under `plan`: a band for each subband, with its
/// code-block grid, and each code-block coded with the subband's bit-planes.
pub open spec fn component_coded(e: EncodedComponent, layout: NativeComponentLayout, plan: EncodingPlan) -> bool {
    &&& e.bands@.len() == layout.subbands@.len()
    &&& forall|i: int| 0 <= i < e.bands@.len() ==> {
        let band = #[trigger] e.bands@[i];
        let sub = layout.subbands@[i];
        &&& band.resolution == sub.resolution && band.band == sub.band
        &&& band.grid_width == crate::t2_decode::max1(crate::t2_decode::grid_count(sub.x0 as nat, sub.x1 as nat, plan.code_block_size.width as nat))
        &&& band.grid_height == crate::t2_decode::max1(crate::t2_decode::grid_count(sub.y0 as nat, sub.y1 as nat, plan.code_block_size.height as nat))
        &&& band.blocks@.len() == sub.codeblocks@.len()
        &&& forall|k: int| 0 <= k < band.blocks@.len() ==> block_coded(#[trigger] band.blocks@[k], sub.codeblocks@[k], subband_bitplanes(plan, i), sub.band)
    }
}

/// Code-block `c` is well formed: its rectangle is ordered and holds its coefficients.
pub open spec fn cell_fits(c: NativeCodeBlock) -> bool {
    &&& c.x0 <= c.x1 && c.y0 <= c.y1
    &&& (c.x1 - c.x0) * (c.y1 - c.y0) == c.coefficients@.len()
}

/// The plan can code every code-block of the layout: its quantization covers every subband, each
/// subband's bit-plane count fits a byte, and every code-block is well formed.
pub open spec fn component_owed(layout: NativeComponentLayout, plan: EncodingPlan) -> bool {
    &&& layout.subbands@.len() == plan.subband_quants@.len()
    &&& plan.code_block_size.width >= 1 && plan.code_block_size.height >= 1
    &&& forall|i: int| 0 <= i < layout.subbands@.len() ==> #[trigger] subband_bitplanes(plan, i) <= 255
    &&& forall|i: int, k: int| 0 <= i < layout.subbands@.len() && 0 <= k < layout.subbands@[i].codeblocks@.len()
        ==> cell_fits(#[trigger] layout.subbands@[i].codeblocks@[k])
}

/// Codes one component's code-blocks, each with its subband's bit-plane count from the plan's
/// quantization: the guard bits less one plus the subband's exponent.
pub(crate) fn encode_component(plan: &EncodingPlan, layout: &NativeComponentLayout) -> (r: Result<EncodedComponent>)
    ensures
        r matches Ok(e) ==> component_coded(e, *layout, *plan),
        r matches Err(e) ==> e is EncodeFailed,
        component_owed(*layout, *plan) ==> r is Ok,
{
    if layout.subbands.len() != plan.subband_quants.len() {
        return Err(encode_failed("quantization does not cover every subband"));
    }
    let cbw = plan.code_block_size.width;
    let cbh = plan.code_block_size.height;
    if cbw == 0 || cbh == 0 {
        return Err(encode_failed("empty code-block size"));
    }
    let guard: u8 = if plan.guard_bits >= 1 { plan.guard_bits - 1 } else { 0 };
    let mut bands: Vec<EncodedBand> = Vec::new();
    let mut i: usize = 0;
    while i < layout.subbands.len()
        invariant
            layout.subbands@.len() == plan.subband_quants@.len(),
            i <= layout.subbands@.len(),
            cbw >= 1,
            cbh >= 1,
            cbw == plan.code_block_size.width,
            cbh == plan.code_block_size.height,
            guard == (if plan.guard_bits >= 1 { plan.guard_bits - 1 } else { 0 }),
            bands@.len() == i,
            forall|j: int| 0 <= j < i ==> {
                let band = #[trigger] bands@[j];
                let sub = layout.subbands@[j];
                &&& band.resolution == sub.resolution && band.band == sub.band
                &&& band.grid_width == crate::t2_decode::max1(crate::t2_decode::grid_count(sub.x0 as nat, sub.x1 as nat, plan.code_block_size.width as nat))
                &&& band.grid_height == crate::t2_decode::max1(crate::t2_decode::grid_count(sub.y0 as nat, sub.y1 as nat, plan.code_block_size.height as nat))
                &&& band.blocks@.len() == sub.codeblocks@.len()
                &&& forall|k: int| 0 <= k < band.blocks@.len() ==> block_coded(#[trigger] band.blocks@[k], sub.codeblocks@[k], subband_bitplanes(*plan, j), sub.band)
            },
        decreases layout.subbands@.len() - i,
    {
        let sub = &layout.subbands[i];
        let exponent = plan.subband_quants[i].exponent;
        proof {
            if component_owed(*layout, *plan) {
                assert(subband_bitplanes(*plan, i as int) <= 255);
            }
        }
        if exponent > 255 - guard {
            return Err(encode_failed("subband bit-plane count exceeds 255"));
        }
        let mb = guard + exponent;
        let mut blocks: Vec<EncodedCodeBlock> = Vec::new();
        let mut k: usize = 0;
        while k < sub.codeblocks.len()
            invariant
                i < layout.subbands@.len(),
                sub == &layout.subbands@[i as int],
                k <= sub.codeblocks@.len(),
                mb as nat == subband_bitplanes(*plan, i as int),
                blocks@.len() == k,
                forall|m: int| 0 <= m < k ==> block_coded(#[trigger] blocks@[m], sub.codeblocks@[m], mb as nat, sub.band),
            decreases sub.codeblocks@.len() - k,
        {
            let cell = &sub.codeblocks[k];
            proof {
                if component_owed(*layout, *plan) {
                    assert(cell_fits(layout.subbands@[i as int].codeblocks@[k as int]));
                }
            }
            if cell.x0 > cell.x1 || cell.y0 > cell.y1 {
                return Err(encode_failed("invalid code-block rectangle"));
            }
            let bw = (cell.x1 - cell.x0) as usize;
            let bh = (cell.y1 - cell.y0) as usize;
            if bw.checked_mul(bh) != Some(cell.coefficients.len()) {
                return Err(encode_failed("code-block coefficient count does not match its rectangle"));
            }
            let block = encode_codeblock(cell.coefficients.as_slice(), bw, bh, sub.band, mb, (cell.x0, cell.y0, cell.x1, cell.y1))?;
            proof {
                assert(block.magnitude_bitplanes == bit_length(max_abs(cell.coefficients@, cell.coefficients@.len())));
                assert(block_coded(block, *cell, mb as nat, sub.band));
            }
            let ghost before = blocks@;
            blocks.push(block);
            proof {
                assert forall|m: int| 0 <= m < k + 1 implies block_coded(#[trigger] blocks@[m], sub.codeblocks@[m], mb as nat, sub.band) by {
                    if m < k { assert(blocks@[m] == before[m]); }
                }
            }
            k = k + 1;
        }
        let ghost before = bands@;
        bands.push(EncodedBand {
            resolution: sub.resolution,
            band: sub.band,
            grid_width: grid_dims(sub.x0, sub.x1, cbw),
            grid_height: grid_dims(sub.y0, sub.y1, cbh),
            blocks,
        });
        proof {
            assert forall|j: int| 0 <= j < i + 1 implies #[trigger] bands@[j] == (if j < i { before[j] } else { bands@[i as int] }) by {}
        }
        i = i + 1;
    }
    let e = EncodedComponent { bands };
    proof {
        assert(e.bands@.len() == layout.subbands@.len());
    }
    Ok(e)
}

/// `e` is the Tier-1 coding of component `c` of `planes` under `plan`: of the layout of its
/// coefficients.
pub open spec fn component_from(e: EncodedComponent, plan: EncodingPlan, planes: Seq<Seq<i32>>, c: int) -> bool {
    exists|l: NativeComponentLayout| #[trigger] component_coded(e, l, plan)
        && layout_matches(l, plan.width as usize, plan.height as usize, plan.decomposition_levels,
            dwt_forward(reversible_input(planes, plan.use_mct, c), plan.width as nat, plan.height as nat, plan.decomposition_levels as nat),
            plan.code_block_size)
}

/// `v` is the Tier-1 coding of every component of `planes` under `plan`, in order.
pub open spec fn tier1_coded(v: Seq<EncodedComponent>, plan: EncodingPlan, planes: Seq<Seq<i32>>) -> bool {
    &&& v.len() == plan.component_count
    &&& forall|c: int| 0 <= c < v.len() ==> component_from(#[trigger] v[c], plan, planes, c)
}

/// `b` is a codestream of `planes` under `plan`: SOC, the SIZ, COD and QCD segments of the plan,
/// one tile-part whose payload holds the packets of a Tier-1 coding of the components, and EOC.
pub open spec fn coded_codestream(b: Seq<u8>, plan: EncodingPlan, planes: Seq<Seq<i32>>) -> bool {
    exists|p: CodestreamParts| #[trigger] parts_spec(p, plan) == Some(b)
        && p.main_header_segments@.len() == 3 && p.tile_parts@.len() == 1
        && views(p.main_header_segments@) == seq![siz_spec(plan).unwrap(), cod_spec(plan), qcd_spec(plan).unwrap()]
        && p.tile_parts@[0].header == (TilePartHeader { tile_index: 0, part_index: 0, total_parts: 1 })
        && p.tile_parts@[0].header_segments@.len() == 0
        && exists|v: Seq<EncodedComponent>| #[trigger] tier1_coded(v, plan, planes) && components_ok(v)
            && p.tile_parts@[0].payload.packet_views() == payload_packets_spec(v)
}

/// Every component's coefficients can be laid out and coded: each component goes through the
/// forward transform, the code-block size is not empty, and every layout of the coefficients fits
/// the plan.
pub open spec fn tier1_owed(plan: EncodingPlan, planes: Seq<Seq<i32>>) -> bool {
    &&& forall|c: int| 0 <= c < plan.component_count ==> #[trigger] coefficients_owed(plan, planes, c)
    &&& plan.code_block_size.width >= 1 && plan.code_block_size.height >= 1
    &&& forall|c: int, l: NativeComponentLayout| 0 <= c < plan.component_count && #[trigger] layout_matches(l,
        plan.width as usize, plan.height as usize, plan.decomposition_levels,
        dwt_forward(reversible_input(planes, plan.use_mct, c), plan.width as nat, plan.height as nat,
            plan.decomposition_levels as nat), plan.code_block_size) ==> component_owed(l, plan)
}

/// Tier-1 coding succeeds and every coding of the components has code-block grids that the
/// packet headers can code.
pub open spec fn payload_owed(plan: EncodingPlan, planes: Seq<Seq<i32>>) -> bool {
    &&& tier1_owed(plan, planes)
    &&& forall|v: Seq<EncodedComponent>| #[trigger] tier1_coded(v, plan, planes) ==> components_ok(v)
}

/// `p` is a codestream of `planes` under `plan` before it is written out: the SIZ, COD and QCD
/// segments of the plan and one tile-part of the packets of a Tier-1 coding of the components.
pub open spec fn parts_of(p: CodestreamParts, plan: EncodingPlan, planes: Seq<Seq<i32>>) -> bool {
    &&& p.main_header_segments@.len() == 3 && p.tile_parts@.len() == 1
    &&& p.tile_parts@[0].header == (TilePartHeader { tile_index: 0, part_index: 0, total_parts: 1 })
    &&& views(p.main_header_segments@) == seq![siz_spec(plan).unwrap(), cod_spec(plan), qcd_spec(plan).unwrap()]
    &&& p.tile_parts@[0].header_segments@.len() == 0
    &&& exists|v: Seq<EncodedComponent>| #[trigger] tier1_coded(v, plan, planes) && components_ok(v)
        && p.tile_parts@[0].payload.packet_views() == payload_packets_spec(v)
}

/// The payload can be built and the plan's SIZ and QCD segments written.
pub open spec fn parts_owed(plan: EncodingPlan, planes: Seq<Seq<i32>>) -> bool {
    &&& payload_owed(plan, planes)
    &&& siz_spec(plan) is Some
    &&& qcd_spec(plan) is Some
}

/// The parts can be built, and every such codestream can be written out (its tile-part length
/// fits the SOT field).
pub open spec fn bytes_owed(plan: EncodingPlan, planes: Seq<Seq<i32>>) -> bool {
    &&& parts_owed(plan, planes)
    &&& forall|p: CodestreamParts| #[trigger] parts_of(p, plan, planes) ==> parts_spec(p, plan) is Some
}

/// The integer encoder's stages, from samples to codestream bytes.
pub struct NativeBackend;

/// The lanes the integer encoder codes.
pub open spec fn lane_supported(context: EncodeContext) -> bool {
    context.plan.transform is Reversible53
}

impl NativeBackend {
    /// Whether the plan's lane is one this encoder codes: the lossless lanes.
    pub fn supports_lane(&self, context: &EncodeContext) -> (b: bool)
        ensures
            b == lane_supported(*context),
    {
        context.plan.transform == WaveletTransform::Reversible53
    }

    /// Whether this encoder codes the plan.
    pub fn supports(&self, context: &EncodeContext) -> (b: bool)
        ensures
            b == lane_supported(*context),
    {
        self.supports_lane(context)
    }

    /// The coefficients of one component.
    pub fn prepare_component_coefficients(&self, context: &EncodeContext, component_index: usize) -> (r: Result<NativeComponentCoefficients>)
        ensures
            r matches Ok(c) ==> c.width == context.plan.width && c.height == context.plan.height
                && c.levels == context.plan.decomposition_levels
                && c.data@ == dwt_forward(reversible_input(context.planes(), context.plan.use_mct, component_index as int),
                    context.plan.width as nat, context.plan.height as nat, context.plan.decomposition_levels as nat),
            r matches Err(e) ==> e is EncodeFailed || e is UnsupportedFeature,
            lane_supported(*context) ==> (r matches Err(e) ==> e is EncodeFailed),
            r is Ok <==> coefficients_owed(context.plan, context.planes(), component_index as int),
    {
        prepare_component_coefficients(context, component_index)
    }

    /// The subbands and code-blocks of one component.
    pub fn prepare_component_layout(&self, context: &EncodeContext, component_index: usize) -> (r: Result<NativeComponentLayout>)
        ensures
            r matches Ok(l) ==> layout_matches(l, context.plan.width as usize, context.plan.height as usize,
                context.plan.decomposition_levels,
                dwt_forward(reversible_input(context.planes(), context.plan.use_mct, component_index as int),
                    context.plan.width as nat, context.plan.height as nat, context.plan.decomposition_levels as nat),
                context.plan.code_block_size),
            r matches Err(e) ==> e is EncodeFailed || e is UnsupportedFeature,
            lane_supported(*context) ==> (r matches Err(e) ==> e is EncodeFailed),
            r is Ok <==> coefficients_owed(context.plan, context.planes(), component_index as int)
                && context.plan.code_block_size.width >= 1 && context.plan.code_block_size.height >= 1,
    {
        let coefficients = prepare_component_coefficients(context, component_index)?;
        proof {
            lemma_dwt_forward_len(reversible_input(context.planes(), context.plan.use_mct, component_index as int),
                context.plan.width as nat, context.plan.height as nat, context.plan.decomposition_levels as nat);
        }
        build_component_layout(&coefficients, context.plan.code_block_size)
    }

    /// Every component's code-blocks, coded by Tier-1.
    pub fn prepare_tier1_encoded_layouts(&self, context: &EncodeContext) -> (r: Result<Vec<EncodedComponent>>)
        ensures
            r matches Ok(v) ==> tier1_coded(v@, context.plan, context.planes()),
            r matches Err(e) ==> e is EncodeFailed || e is UnsupportedFeature,
            lane_supported(*context) ==> (r matches Err(e) ==> e is EncodeFailed),
            tier1_owed(context.plan, context.planes()) ==> r is Ok,
    {
        let plan = &context.plan;
        let mut components: Vec<EncodedComponent> = Vec::new();
        let mut c: usize = 0;
        while c < plan.component_count as usize
            invariant
                plan == &context.plan,
                c <= plan.component_count,
                components@.len() == c,
                forall|j: int| 0 <= j < c ==> component_from(#[trigger] components@[j], context.plan, context.planes(), j),
            decreases plan.component_count as usize - c,
        {
            proof {
                if tier1_owed(context.plan, context.planes()) {
                    assert(coefficients_owed(context.plan, context.planes(), c as int));
                }
            }
            let layout = self.prepare_component_layout(context, c)?;
            proof {
                if tier1_owed(context.plan, context.planes()) {
                    assert(layout_matches(layout, context.plan.width as usize, context.plan.height as usize,
                        context.plan.decomposition_levels,
                        dwt_forward(reversible_input(context.planes(), context.plan.use_mct, c as int),
                            context.plan.width as nat, context.plan.height as nat, context.plan.decomposition_levels as nat),
                        context.plan.code_block_size));
                    assert(component_owed(layout, context.plan));
                }
            }
            let e = encode_component(plan, &layout)?;
            proof { assert(component_coded(e, layout, context.plan)); }
            components.push(e);
            proof {
                assert forall|j: int| 0 <= j < c + 1 implies component_from(#[trigger] components@[j], context.plan, context.planes(), j) by {
                    if j == c { assert(components@[j] == e); }
                }
            }
            c = c + 1;
        }
        Ok(components)
    }

    /// The packets of the tile-part.
    pub fn prepare_packet_sequence(&self, context: &EncodeContext) -> (r: Result<NativePacketSequence>)
        ensures
            r matches Ok(sq) ==> exists|v: Seq<EncodedComponent>| #[trigger] tier1_coded(v, context.plan, context.planes()) && components_ok(v)
                && packet_views(sq.packets@) == packet_sequence_spec(v),
            lane_supported(*context) ==> (r matches Err(e) ==> e is EncodeFailed),
            payload_owed(context.plan, context.planes()) ==> r is Ok,
    {
        let encoded = self.prepare_tier1_encoded_layouts(context)?;
        build_packet_sequence_for_components(&encoded)
    }

    /// The payload of the tile-part.
    pub fn prepare_tile_part_payload(&self, context: &EncodeContext) -> (r: Result<TilePartPayload>)
        ensures
            r matches Ok(p) ==> exists|v: Seq<EncodedComponent>| #[trigger] tier1_coded(v, context.plan, context.planes()) && components_ok(v)
                && p.packet_views() == payload_packets_spec(v),
            lane_supported(*context) ==> (r matches Err(e) ==> e is EncodeFailed),
            payload_owed(context.plan, context.planes()) ==> r is Ok,
    {
        let encoded = self.prepare_tier1_encoded_layouts(context)?;
        build_tile_part_payload_for_components(&encoded)
    }

    /// The main-header segments and the one tile-part of the codestream.
    pub fn prepare_codestream_parts(&self, context: &EncodeContext) -> (r: Result<CodestreamParts>)
        ensures
            r matches Ok(p) ==> parts_of(p, context.plan, context.planes()),
            r matches Err(e) ==> e is EncodeFailed || e is UnsupportedFeature,
            lane_supported(*context) ==> (r matches Err(e) ==> e is EncodeFailed),
            lane_supported(*context) && parts_owed(context.plan, context.planes()) ==> r is Ok,
    {
        if !self.supports_lane(context) {
            return Err(unsupported("the integer encoder codes only the lossless lanes"));
        }
        let payload = self.prepare_tile_part_payload(context)?;
        let mut tile_parts: Vec<TilePart> = Vec::new();
        tile_parts.push(TilePart {
            header: TilePartHeader { tile_index: 0, part_index: 0, total_parts: 1 },
            header_segments: Vec::new(),
            payload,
        });
        let main_header_segments = build_main_header_segments(&context.plan)?;
        proof {
            assert(views(main_header_segments@) =~= seq![siz_spec(context.plan).unwrap(), cod_spec(context.plan), qcd_spec(context.plan).unwrap()]);
        }
        Ok(CodestreamParts { main_header_segments, tile_parts })
    }

    /// The codestream's bytes.
    pub fn prepare_codestream_bytes(&self, context: &EncodeContext) -> (r: Result<Vec<u8>>)
        ensures
            r matches Ok(b) ==> coded_codestream(b@, context.plan, context.planes()),
            r matches Err(e) ==> e is EncodeFailed || e is UnsupportedFeature,
            lane_supported(*context) ==> (r matches Err(e) ==> e is EncodeFailed),
            lane_supported(*context) && bytes_owed(context.plan, context.planes()) ==> r is Ok,
    {
        let parts = self.prepare_codestream_parts(context)?;
        let r = parts.encode(&context.plan);
        proof {
            if r is Ok {
                assert(parts_spec(parts, context.plan) == Some(r->Ok_0@));
            }
        }
        r
    }

    /// The codestream of a plan in one of the lanes this encoder codes.
    pub fn encode_codestream(&self, context: &EncodeContext) -> (r: Result<Vec<u8>>)
        ensures
            r matches Ok(b) ==> coded_codestream(b@, context.plan, context.planes()),
            r matches Err(e) ==> e is EncodeFailed || e is UnsupportedFeature,
            lane_supported(*context) ==> (r matches Err(e) ==> e is EncodeFailed),
            !lane_supported(*context) ==> (r matches Err(e) && e is UnsupportedFeature),
            lane_supported(*context) && bytes_owed(context.plan, context.planes()) ==> r is Ok,
    {
        if !self.supports_lane(context) {
            return Err(unsupported("the integer encoder codes only the lossless lanes"));
        }
        self.prepare_codestream_bytes(context)
    }
}

/// `v` is what encoding `image` with `options` gives: a lossless codestream of the image under
/// its plan, raw or in a JP2 file as the options ask.
pub open spec fn encodes_to(image: Image, options: EncodeOptions, v: Seq<u8>) -> bool {
    &&& options.quality == 100 && !plan_issue(image, options)
    &&& options.format == OutputFormat::J2k ==> codestream_spec(v) is Some
        && exists|plan: EncodingPlan| #[trigger] plan_matches(plan, image, options)
            && coded_codestream(v, plan, prepared_planes(image))
    &&& options.format == OutputFormat::Jp2 ==> exists|cs: Seq<u8>| #[trigger] codestream_spec(cs) is Some
        && v == jp2_spec(image, cs)
        && exists|plan: EncodingPlan| #[trigger] plan_matches(plan, image, options)
            && coded_codestream(cs, plan, prepared_planes(image))
}

/// The code-blocks of a layout have ordered corners and hold the coefficients of their
/// rectangles.
pub(crate) proof fn lemma_layout_cells(l: NativeComponentLayout, width: u32, height: u32, levels: u8, data: Seq<i32>,
    cb: crate::plan_types::CodeBlockSize, i: int, k: int)
    requires
        layout_matches(l, width as usize, height as usize, levels, data, cb),
        0 <= i < l.subbands@.len(),
        0 <= k < l.subbands@[i].codeblocks@.len(),
    ensures
        ({
            let c = l.subbands@[i].codeblocks@[k];
            c.x0 <= c.x1 && c.y0 <= c.y1 && (c.x1 - c.x0) * (c.y1 - c.y0) == c.coefficients@.len()
        }),
{
    let rects = crate::t2_decode::band_rects(crate::t2_decode::ladder_spec(width as nat, height as nat, levels as nat), levels as nat);
    lemma_band_rects_inside(width, height, levels as nat, i);
    let r = rects[i];
    let b = l.subbands@[i];
    assert(blocks_match(b.codeblocks@, data, width as nat, r, cb.width as nat, cb.height as nat));
    lemma_grid_cells_inside(r.x0 as nat, r.x1 as nat, cb.width as nat, r.y0 as nat, r.y1 as nat, cb.height as nat, k);
    let c = b.codeblocks@[k];
    assert(c.coefficients@ == block_samples(data, width as nat, c.x0 as nat, c.y0 as nat, c.x1 as nat, c.y1 as nat));
}

/// The lossless plan of a valid image: every component goes through the forward transform, the
/// code-blocks are not empty, every subband's bit-plane count fits a byte, and the SIZ and QCD
/// segments can be written.
proof fn lemma_lossless_plan(image: Image, options: EncodeOptions, plan: EncodingPlan)
    requires
        !plan_issue(image, options),
        options.quality == 100,
        plan_matches(plan, image, options),
    ensures
        forall|c: int| 0 <= c < plan.component_count ==> #[trigger] coefficients_owed(plan, prepared_planes(image), c),
        plan.code_block_size.width >= 1 && plan.code_block_size.height >= 1,
        forall|i: int| 0 <= i < plan.subband_quants@.len() ==> #[trigger] subband_bitplanes(plan, i) <= 255,
        siz_spec(plan) is Some,
        qcd_spec(plan) is Some,
{
    let planes = prepared_planes(image);
    let n = image.components@.len();
    let area = (image.width as nat) * (image.height as nat);
    assert forall|k: int| 0 <= k < n implies (#[trigger] image.components@[k]).data@.len() == area by {
        assert(crate::plan::component_plain(image.components@[k], image.width, image.height));
    }
    assert forall|c: int| 0 <= c < plan.component_count implies #[trigger] coefficients_owed(plan, planes, c) by {
        if n == 3 {
            assert(image.components@[0].data@.len() == area);
            assert(image.components@[1].data@.len() == area);
            assert(image.components@[2].data@.len() == area);
        } else {
            assert(image.components@[c].data@.len() == area);
        }
    }
    assert forall|i: int| 0 <= i < plan.subband_quants@.len() implies #[trigger] subband_bitplanes(plan, i) <= 255 by {
        assert(plan.subband_quants@[i] == crate::plan::subband_quant_spec(true,
            crate::plan::plan_levels(image.width, image.height), i as nat));
    }
    assert(!(exists|k: int| 0 <= k < plan.components@.len()
        && ((#[trigger] plan.components@[k]).dx > 255 || plan.components@[k].dy > 255)));
}

/// Under the lossless plan of a valid image, Tier-1 coding is owed.
proof fn lemma_tier1_owed(image: Image, options: EncodeOptions, plan: EncodingPlan)
    requires
        !plan_issue(image, options),
        options.quality == 100,
        plan_matches(plan, image, options),
    ensures
        tier1_owed(plan, prepared_planes(image)),
{
    let planes = prepared_planes(image);
    lemma_lossless_plan(image, options, plan);
    assert forall|c: int, l: NativeComponentLayout| 0 <= c < plan.component_count && #[trigger] layout_matches(l,
        plan.width as usize, plan.height as usize, plan.decomposition_levels,
        dwt_forward(reversible_input(planes, plan.use_mct, c), plan.width as nat, plan.height as nat,
            plan.decomposition_levels as nat), plan.code_block_size) implies component_owed(l, plan) by {
        let data = dwt_forward(reversible_input(planes, plan.use_mct, c), plan.width as nat, plan.height as nat,
            plan.decomposition_levels as nat);
        assert forall|i: int, k: int| 0 <= i < l.subbands@.len() && 0 <= k < l.subbands@[i].codeblocks@.len()
            implies cell_fits(#[trigger] l.subbands@[i].codeblocks@[k]) by {
            lemma_layout_cells(l, plan.width, plan.height, plan.decomposition_levels, data, plan.code_block_size, i, k);
        }
    }
}

/// Under the lossless plan of a valid image of at most 2^35 samples, every Tier-1 coding of the
/// components has code-block grids that the packet headers' tag trees hold.
proof fn lemma_grids_fit(image: Image, options: EncodeOptions, plan: EncodingPlan, v: Seq<EncodedComponent>)
    requires
        !plan_issue(image, options),
        options.quality == 100,
        plan_matches(plan, image, options),
        tier1_coded(v, plan, prepared_planes(image)),
        (image.width as nat) * (image.height as nat) <= 0x8_0000_0000,
    ensures
        components_ok(v),
{
    let planes = prepared_planes(image);
    assert forall|c: int, i: int| 0 <= c < v.len() && 0 <= i < v[c].bands@.len() && (#[trigger] v[c].bands@[i]).blocks@.len() > 0
        implies crate::t2_encode::band_ok(v[c].bands@[i]) by {
        assert(component_from(v[c], plan, planes, c));
        let data = dwt_forward(reversible_input(planes, plan.use_mct, c), plan.width as nat, plan.height as nat,
            plan.decomposition_levels as nat);
        let l = choose|l: NativeComponentLayout| #[trigger] component_coded(v[c], l, plan)
            && layout_matches(l, plan.width as usize, plan.height as usize, plan.decomposition_levels, data, plan.code_block_size);
        let band = v[c].bands@[i];
        let sub = l.subbands@[i];
        let rects = crate::t2_decode::band_rects(crate::t2_decode::ladder_spec(plan.width as nat, plan.height as nat,
            plan.decomposition_levels as nat), plan.decomposition_levels as nat);
        lemma_band_rects_inside(plan.width, plan.height, plan.decomposition_levels as nat, i);
        let r = rects[i];
        assert(blocks_match(sub.codeblocks@, data, plan.width as nat, r, 64, 64));
        crate::t2_decode::lemma_grid_len(r.x0 as nat, r.x1 as nat, 64, r.y0 as nat, r.y1 as nat, 64);
        let gx = crate::t2_decode::grid_count(r.x0 as nat, r.x1 as nat, 64);
        let gy = crate::t2_decode::grid_count(r.y0 as nat, r.y1 as nat, 64);
        lemma_grid_product(gx, (if r.x1 <= r.x0 { 0 } else { (r.x1 - r.x0) as nat }), plan.width as nat,
            gy, (if r.y1 <= r.y0 { 0 } else { (r.y1 - r.y0) as nat }), plan.height as nat);
        assert(gx * gy <= crate::t2_decode::max1(gx) * crate::t2_decode::max1(gy)) by (nonlinear_arith)
            requires crate::t2_decode::max1(gx) >= gx, crate::t2_decode::max1(gy) >= gy;
    }
}

/// The code-block grid of a band within an image of at most 2^35 samples has fewer than 2^30
/// blocks.
proof fn lemma_grid_product(gx: nat, sx: nat, w: nat, gy: nat, sy: nat, h: nat)
    requires
        gx == (if sx == 0 { 0 } else { (sx + 63) / 64 }),
        gy == (if sy == 0 { 0 } else { (sy + 63) / 64 }),
        sx <= w,
        sy <= h,
        1 <= w,
        1 <= h,
        w * h <= 0x8_0000_0000,
    ensures
        crate::t2_decode::max1(gx) * crate::t2_decode::max1(gy) < 0x4000_0000,
{
    let x = crate::t2_decode::max1(gx);
    let y = crate::t2_decode::max1(gy);
    assert(64 * x <= w + 63);
    assert(64 * y <= h + 63);
    assert(w + h <= w * h + 1) by (nonlinear_arith)
        requires 1 <= w, 1 <= h;
    assert(4096 * (x * y) <= (w + 63) * (h + 63)) by (nonlinear_arith)
        requires 64 * x <= w + 63, 64 * y <= h + 63;
    assert((w + 63) * (h + 63) <= 64 * (w * h) + 4032) by (nonlinear_arith)
        requires w + h <= w * h + 1;
}

/// Under the lossless plan of a valid image, every codestream the plan codes frames.
proof fn lemma_coded_frames(image: Image, options: EncodeOptions, plan: EncodingPlan, b: Seq<u8>)
    requires
        !plan_issue(image, options),
        options.quality == 100,
        plan_matches(plan, image, options),
        coded_codestream(b, plan, prepared_planes(image)),
    ensures
        codestream_spec(b) is Some,
{
    lemma_lossless_plan(image, options, plan);
    crate::markers::lemma_siz_reads_back(plan);
    crate::markers::lemma_cod_reads_back(plan);
    assert forall|k: int| 0 <= k < plan.subband_quants@.len() implies (#[trigger] plan.subband_quants@[k]).exponent < 32
        && plan.subband_quants@[k].mantissa < 2048 by {
        assert(plan.subband_quants@[k] == crate::plan::subband_quant_spec(true,
            crate::plan::plan_levels(image.width, image.height), k as nat));
    }
    crate::markers::lemma_qcd_reads_back(plan);
    let p = choose|p: CodestreamParts| #[trigger] parts_spec(p, plan) == Some(b)
        && p.main_header_segments@.len() == 3 && p.tile_parts@.len() == 1
        && views(p.main_header_segments@) == seq![siz_spec(plan).unwrap(), cod_spec(plan), qcd_spec(plan).unwrap()]
        && p.tile_parts@[0].header == (TilePartHeader { tile_index: 0, part_index: 0, total_parts: 1 })
        && p.tile_parts@[0].header_segments@.len() == 0
        && exists|v: Seq<EncodedComponent>| #[trigger] tier1_coded(v, plan, prepared_planes(image)) && components_ok(v)
            && p.tile_parts@[0].payload.packet_views() == payload_packets_spec(v);
    crate::codestream_write::lemma_written_codestream_frames(p, plan);
}

/// Encoding `image` with `options` is owed: the image and options are valid and lossless, the
/// image has at most 2^35 samples (the code-block grids then fit the packet headers' tag
/// trees), and under the plan they give the tile-part length fits the SOT field and the
/// codestream fits a JP2 box when one is asked.
#[verifier::opaque]
pub open spec fn encode_owed(image: Image, options: EncodeOptions) -> bool {
    &&& !plan_issue(image, options)
    &&& options.quality == 100
    &&& (image.width as nat) * (image.height as nat) <= 0x8_0000_0000
    &&& forall|plan: EncodingPlan| #[trigger] plan_matches(plan, image, options) ==> {
        &&& forall|p: CodestreamParts| #[trigger] parts_of(p, plan, prepared_planes(image)) ==> parts_spec(p, plan) is Some
        &&& options.format == OutputFormat::Jp2 ==> forall|b: Seq<u8>| #[trigger] coded_codestream(b, plan, prepared_planes(image))
            ==> b.len() + 8 <= u32::MAX
    }
}

/// `a` and `b` are the same plan but for the output format.
pub open spec fn same_but_format(a: EncodingPlan, b: EncodingPlan) -> bool {
    &&& a.lane == b.lane && a.colorspace == b.colorspace && a.width == b.width && a.height == b.height
    &&& a.component_count == b.component_count && a.components@ == b.components@
    &&& a.decomposition_levels == b.decomposition_levels && a.code_block_size == b.code_block_size
    &&& a.guard_bits == b.guard_bits && a.use_mct == b.use_mct && a.transform == b.transform
    &&& a.quantization_style == b.quantization_style && a.progression_order == b.progression_order
    &&& a.layers == b.layers && a.subband_quants@ == b.subband_quants@ && a.quality == b.quality
}

proof fn lemma_main_spec_format(segs: Seq<Seq<u8>>, a: EncodingPlan, b: EncodingPlan)
    requires
        same_but_format(a, b),
    ensures
        crate::codestream_write::main_spec(segs, a) == crate::codestream_write::main_spec(segs, b),
    decreases segs.len(),
{
    if segs.len() > 0 {
        lemma_main_spec_format(segs.drop_last(), a, b);
        assert(siz_spec(a) == siz_spec(b));
        assert(cod_spec(a) == cod_spec(b));
        assert(qcd_spec(a) == qcd_spec(b));
    }
}

/// The codestream a plan codes does not depend on the output format.
proof fn lemma_coded_codestream_format(bytes: Seq<u8>, a: EncodingPlan, b: EncodingPlan, planes: Seq<Seq<i32>>)
    requires
        same_but_format(a, b),
        coded_codestream(bytes, a, planes),
    ensures
        coded_codestream(bytes, b, planes),
{
    let p = choose|p: CodestreamParts| #[trigger] parts_spec(p, a) == Some(bytes)
        && p.main_header_segments@.len() == 3 && p.tile_parts@.len() == 1
        && views(p.main_header_segments@) == seq![siz_spec(a).unwrap(), cod_spec(a), qcd_spec(a).unwrap()]
        && p.tile_parts@[0].header == (TilePartHeader { tile_index: 0, part_index: 0, total_parts: 1 })
        && p.tile_parts@[0].header_segments@.len() == 0
        && exists|v: Seq<EncodedComponent>| #[trigger] tier1_coded(v, a, planes) && components_ok(v)
            && p.tile_parts@[0].payload.packet_views() == payload_packets_spec(v);
    lemma_main_spec_format(views(p.main_header_segments@), a, b);
    assert(siz_spec(a) == siz_spec(b));
    assert(cod_spec(a) == cod_spec(b));
    assert(qcd_spec(a) == qcd_spec(b));
    assert(parts_spec(p, b) == Some(bytes));
    let v = choose|v: Seq<EncodedComponent>| #[trigger] tier1_coded(v, a, planes) && components_ok(v)
        && p.tile_parts@[0].payload.packet_views() == payload_packets_spec(v);
    lemma_tier1_coded_format(v, a, b, planes);
}

proof fn lemma_tier1_coded_format(v: Seq<EncodedComponent>, a: EncodingPlan, b: EncodingPlan, planes: Seq<Seq<i32>>)
    requires
        same_but_format(a, b),
        tier1_coded(v, a, planes),
    ensures
        tier1_coded(v, b, planes),
{
    assert forall|c: int| 0 <= c < v.len() implies component_from(#[trigger] v[c], b, planes, c) by {
        assert(component_from(v[c], a, planes, c));
        let l = choose|l: NativeComponentLayout| #[trigger] component_coded(v[c], l, a)
            && layout_matches(l, a.width as usize, a.height as usize, a.decomposition_levels,
                dwt_forward(reversible_input(planes, a.use_mct, c), a.width as nat, a.height as nat, a.decomposition_levels as nat),
                a.code_block_size);
        assert forall|i: int| 0 <= i < l.subbands@.len() implies #[trigger] subband_bitplanes(a, i) == subband_bitplanes(b, i) by {}
        assert(component_coded(v[c], l, b));
    }
}

/// Encoding to JP2 is owed success whenever encoding the same image with the same quality to a
/// raw codestream is, and every codestream that encoding may give fits a JP2 box.
pub proof fn lemma_jp2_owed_from_j2k(image: Image, quality: u8)
    requires
        encode_owed(image, EncodeOptions { quality, format: OutputFormat::J2k }),
        forall|cs: Seq<u8>| #[trigger] encodes_to(image, EncodeOptions { quality, format: OutputFormat::J2k }, cs)
            ==> cs.len() + 8 <= u32::MAX,
    ensures
        encode_owed(image, EncodeOptions { quality, format: OutputFormat::Jp2 }),
{
    reveal(encode_owed);
    let jp2 = EncodeOptions { quality, format: OutputFormat::Jp2 };
    let j2k = EncodeOptions { quality, format: OutputFormat::J2k };
    let planes = prepared_planes(image);
    assert forall|plan: EncodingPlan| #[trigger] plan_matches(plan, image, jp2) implies {
        &&& forall|p: CodestreamParts| #[trigger] parts_of(p, plan, planes) ==> parts_spec(p, plan) is Some
        &&& forall|b: Seq<u8>| #[trigger] coded_codestream(b, plan, planes) ==> b.len() + 8 <= u32::MAX
    } by {
        let plan1 = EncodingPlan { output_format: OutputFormat::J2k, ..plan };
        assert(same_but_format(plan, plan1));
        assert(same_but_format(plan1, plan));
        assert(plan_matches(plan1, image, j2k));
        assert forall|p: CodestreamParts| #[trigger] parts_of(p, plan, planes) implies parts_spec(p, plan) is Some by {
            let v = choose|v: Seq<EncodedComponent>| #[trigger] tier1_coded(v, plan, planes) && components_ok(v)
                && p.tile_parts@[0].payload.packet_views() == payload_packets_spec(v);
            lemma_tier1_coded_format(v, plan, plan1, planes);
            assert(siz_spec(plan) == siz_spec(plan1));
            assert(cod_spec(plan) == cod_spec(plan1));
            assert(qcd_spec(plan) == qcd_spec(plan1));
            assert(parts_of(p, plan1, planes));
            lemma_main_spec_format(views(p.main_header_segments@), plan, plan1);
        }
        assert forall|b: Seq<u8>| #[trigger] coded_codestream(b, plan, planes) implies b.len() + 8 <= u32::MAX by {
            lemma_coded_codestream_format(b, plan, plan1, planes);
            lemma_coded_frames(image, j2k, plan1, b);
            assert(encodes_to(image, j2k, b));
        }
    }
}

/// The JP2 file that encoding gives wraps the raw codestream that encoding the same image with
/// the same quality gives: encoding to JP2 is encoding to J2K, then wrapping.
pub proof fn lemma_jp2_wraps_j2k(image: Image, quality: u8, v: Seq<u8>)
    requires
        encodes_to(image, EncodeOptions { quality, format: OutputFormat::Jp2 }, v),
    ensures
        exists|cs: Seq<u8>| #[trigger] encodes_to(image, EncodeOptions { quality, format: OutputFormat::J2k }, cs)
            && v == jp2_spec(image, cs),
{
    let jp2 = EncodeOptions { quality, format: OutputFormat::Jp2 };
    let j2k = EncodeOptions { quality, format: OutputFormat::J2k };
    let cs = choose|cs: Seq<u8>| #[trigger] codestream_spec(cs) is Some && v == jp2_spec(image, cs)
        && exists|plan: EncodingPlan| #[trigger] plan_matches(plan, image, jp2) && coded_codestream(cs, plan, prepared_planes(image));
    let plan = choose|plan: EncodingPlan| #[trigger] plan_matches(plan, image, jp2) && coded_codestream(cs, plan, prepared_planes(image));
    let plan2 = EncodingPlan { output_format: OutputFormat::J2k, ..plan };
    assert(same_but_format(plan, plan2));
    lemma_coded_codestream_format(cs, plan, plan2, prepared_planes(image));
    assert(plan_matches(plan2, image, j2k));
    assert(encodes_to(image, j2k, cs));
}

/// Wrapping a raw codestream that encoding gives yields a JP2 file that encoding the same image
/// with the same quality to JP2 may give: together with [`lemma_jp2_wraps_j2k`], the JP2
/// encodings are exactly the wrapped J2K encodings.
pub proof fn lemma_j2k_wrapped_is_jp2(image: Image, quality: u8, cs: Seq<u8>)
    requires
        encodes_to(image, EncodeOptions { quality, format: OutputFormat::J2k }, cs),
    ensures
        encodes_to(image, EncodeOptions { quality, format: OutputFormat::Jp2 }, jp2_spec(image, cs)),
{
    let jp2 = EncodeOptions { quality, format: OutputFormat::Jp2 };
    let j2k = EncodeOptions { quality, format: OutputFormat::J2k };
    let plan = choose|plan: EncodingPlan| #[trigger] plan_matches(plan, image, j2k) && coded_codestream(cs, plan, prepared_planes(image));
    let plan2 = EncodingPlan { output_format: OutputFormat::Jp2, ..plan };
    assert(same_but_format(plan, plan2));
    lemma_coded_codestream_format(cs, plan, plan2, prepared_planes(image));
    assert(plan_matches(plan2, image, jp2));
    assert(encodes_to(image, jp2, jp2_spec(image, cs)));
}

/// Encodes an image losslessly (quality 100): the reversible 5/3 transform, with the reversible
/// colour transform for three components, written as a JP2 file or a raw codestream as the
/// options ask. Lower qualities take the irreversible 9/7 path, which quantizes in floating
/// point and is refused here as an unsupported feature.
pub fn encode(image: &Image, options: &EncodeOptions) -> (r: Result<Vec<u8>>)
    ensures
        plan_issue(*image, *options) ==> (r matches Err(e) && e is InvalidInput),
        !plan_issue(*image, *options) && options.quality != 100 ==> (r matches Err(e) && e is UnsupportedFeature),
        r matches Ok(v) ==> options.quality == 100 && !plan_issue(*image, *options),
        r matches Ok(v) ==> options.format == OutputFormat::J2k ==> codestream_spec(v@) is Some
            && exists|plan: EncodingPlan| #[trigger] plan_matches(plan, *image, *options)
                && coded_codestream(v@, plan, prepared_planes(*image)),
        r matches Ok(v) ==> options.format == OutputFormat::Jp2 ==> exists|cs: Seq<u8>| #[trigger] codestream_spec(cs) is Some
            && v@ == jp2_spec(*image, cs)
            && exists|plan: EncodingPlan| #[trigger] plan_matches(plan, *image, *options)
                && coded_codestream(cs, plan, prepared_planes(*image)),
        r matches Ok(v) ==> encodes_to(*image, *options, v@),
        r matches Err(e) ==> e is InvalidInput || e is UnsupportedFeature || e is EncodeFailed,
        encode_owed(*image, *options) ==> r is Ok,
{
    proof { reveal(encode_owed); }
    let context = EncodeContext::new(image, options)?;
    proof {
        if encode_owed(*image, *options) {
            assert(plan_matches(context.plan, *image, *options));
            lemma_tier1_owed(*image, *options, context.plan);
            assert forall|v: Seq<EncodedComponent>| #[trigger] tier1_coded(v, context.plan, prepared_planes(*image))
                implies components_ok(v) by {
                lemma_grids_fit(*image, *options, context.plan, v);
            }
            lemma_lossless_plan(*image, *options, context.plan);
            assert(bytes_owed(context.plan, prepared_planes(*image)));
            assert forall|b: Seq<u8>| #[trigger] coded_codestream(b, context.plan, prepared_planes(*image))
                implies codestream_spec(b) is Some by {
                lemma_coded_frames(*image, *options, context.plan, b);
            }
        }
    }
    let native = NativeBackend;
    if !native.supports(&context) {
        return Err(unsupported("lossy encoding quantizes in floating point and is not available in the integer encoder"));
    }
    let codestream = native.encode_codestream(&context)?;
    CodestreamParts::parse_single_tile(codestream.as_slice())?;
    match context.plan.output_format {
        OutputFormat::J2k => Ok(codestream),
        OutputFormat::Jp2 => wrap_codestream(image, codestream.as_slice()),
    }
}

} // verus!

//! From decoded code-blocks to image samples: placing code-blocks in their tile, the inverse
//! wavelet transform, the inverse colour transform and the final DC shift.
use vstd::prelude::*;
use crate::decode_markers::{CodestreamHeader, ComponentSiz, QuantizationStyle, WaveletTransform};
use crate::dwt53::{dwt_inverse, inverse_53_2d_in_place, lemma_dwt_inverse_len};
use crate::error::{Result, decode_failed, unsupported};
use crate::model::{ColorSpace, Component, Image};
use crate::rct::{inverse_rct_sample, rct_inverse};
use crate::t1_decode::{DecodedCodeBlockCoefficients, codeblock_issue, decode_codeblock, codeblock_coefficients};
use crate::t2_decode::{DecodedCodeBlock, DecodedTilePackets};

verus! {

/// The decoded coefficients of one component of the tile, row by row.
#[derive(Debug, Clone)]
pub struct DecodedTileCoefficients {
    pub component: usize,
    pub width: usize,
    pub height: usize,
    pub coefficients: Vec<i32>,
}

/// `tile` after rows `0..rows` of a `bw`-wide block have been written at `(x0, y0)`, one row
/// after the other.
pub open spec fn copy_rows(tile: Seq<i32>, tile_width: nat, x0: nat, y0: nat, bw: nat, block: Seq<i32>, rows: nat) -> Seq<i32>
    decreases rows,
{
    if rows == 0 {
        tile
    } else {
        let prev = copy_rows(tile, tile_width, x0, y0, bw, block, (rows - 1) as nat);
        let dst = (y0 + rows - 1) * tile_width + x0;
        let src = (rows - 1) * bw;
        Seq::new(prev.len(), |j: int| if dst <= j < dst + bw { block[src + j - dst] } else { prev[j] })
    }
}

/// Whether the last row of a `bw` by `bh` block at `(x0, y0)` ends inside a tile of `len` samples.
pub open spec fn block_fits(tile_width: nat, len: nat, x0: nat, y0: nat, bw: nat, bh: nat) -> bool {
    bh == 0 || (y0 + bh - 1 <= usize::MAX && (y0 + bh - 1) * tile_width + x0 + bw <= len)
}

/// Copies a decoded code-block into the tile at `(block_x0, block_y0)`, row by row.
pub fn copy_block_to_tile(
    tile_width: usize,
    tile: &mut Vec<i32>,
    block_x0: u32,
    block_y0: u32,
    block: &DecodedCodeBlockCoefficients,
) -> (r: Result<()>)
    requires
        block.coefficients@.len() == block.width * block.height,
    ensures
        r is Ok <==> block_fits(tile_width as nat, old(tile)@.len(), block_x0 as nat, block_y0 as nat,
            block.width as nat, block.height as nat),
        r is Ok ==> final(tile)@ == copy_rows(old(tile)@, tile_width as nat, block_x0 as nat, block_y0 as nat,
            block.width as nat, block.coefficients@, block.height as nat),
        r is Err ==> final(tile)@ == old(tile)@,
        final(tile)@.len() == old(tile)@.len(),
        r matches Err(e) ==> e is DecodeFailed,
{
    let len = tile.len();
    let bw = block.width;
    let bh = block.height;
    if bh == 0 {
        return Ok(());
    }
    let x0 = block_x0 as usize;
    let y0 = block_y0 as usize;
    let last = match y0.checked_add(bh - 1) {
        Some(v) => v,
        None => { return Err(decode_failed("block copy offset overflow")); },
    };
    let row = match last.checked_mul(tile_width) {
        Some(v) => v,
        None => { return Err(decode_failed("block copy offset overflow")); },
    };
    if row > len || x0 > len - row || bw > len - row - x0 {
        return Err(decode_failed("decoded block extends past tile"));
    }
    let ghost orig = tile@;
    let ghost coefs = block.coefficients@;
    let _coef_len = block.coefficients.len();
    let mut y: usize = 0;
    while y < bh
        invariant
            bh == block.height,
            bw == block.width,
            coefs == block.coefficients@,
            coefs.len() == bw * bh,
            x0 == block_x0,
            y0 == block_y0,
            bh > 0,
            last == y0 + bh - 1,
            (y0 + bh - 1) * tile_width + x0 + bw <= orig.len(),
            orig.len() <= usize::MAX,
            coefs.len() <= usize::MAX,
            tile@.len() == orig.len(),
            y <= bh,
            tile@ == copy_rows(orig, tile_width as nat, x0 as nat, y0 as nat, bw as nat, coefs, y as nat),
        decreases bh - y,
    {
        proof {
            assert((y0 + y) * tile_width <= (y0 + bh - 1) * tile_width) by (nonlinear_arith)
                requires y < bh;
            assert(y * bw + bw <= bw * bh) by (nonlinear_arith) requires y < bh;
        }
        let dst = (y0 + y) * tile_width + x0;
        let src = y * bw;
        let ghost before = tile@;
        let mut x: usize = 0;
        while x < bw
            invariant
                dst + bw <= tile@.len(),
                src + bw <= coefs.len(),
                tile@.len() <= usize::MAX,
                coefs.len() <= usize::MAX,
                coefs == block.coefficients@,
                tile@.len() == before.len(),
                x <= bw,
                forall|j: int| 0 <= j < before.len() ==> #[trigger] tile@[j]
                    == if dst <= j < dst + x { coefs[src + j - dst] } else { before[j] },
            decreases bw - x,
        {
            tile.set(dst + x, block.coefficients[src + x]);
            x = x + 1;
        }
        proof {
            let next = copy_rows(orig, tile_width as nat, x0 as nat, y0 as nat, bw as nat, coefs, (y + 1) as nat);
            assert(dst == (y0 + (y + 1) - 1) * tile_width + x0);
            assert(src == ((y + 1) - 1) * bw);
            assert(tile@ =~= next);
        }
        y = y + 1;
    }
    Ok(())
}

/// The quantization step that the code-blocks of a subband use.
pub open spec fn block_step_exponent(header: CodestreamHeader, b: DecodedCodeBlock) -> int {
    header.qcd.steps@[(b.band_index as int) % (header.qcd.steps@.len() as int)].exponent as int
}

/// The guard bits less one, as the magnitude bit-plane count counts them.
pub open spec fn guard_less_one(header: CodestreamHeader) -> int {
    if header.qcd.guard_bits >= 1 { header.qcd.guard_bits - 1 } else { 0 }
}

/// Whether a code-block contribution can be decoded and placed in a component of a tile
/// `width` samples wide and `area` samples large.
pub open spec fn block_decodable(header: CodestreamHeader, b: DecodedCodeBlock, width: nat, area: nat) -> bool {
    let mb = guard_less_one(header) + block_step_exponent(header, b);
    let w = b.x1 - b.x0;
    let h = b.y1 - b.y0;
    &&& header.qcd.steps@.len() > 0
    &&& mb <= 255
    &&& b.x0 <= b.x1
    &&& b.y0 <= b.y1
    &&& w * h <= usize::MAX
    &&& (b.passes == 0 || !codeblock_issue(mb as u8, b.zero_bitplanes, b.passes, b.data@.len()))
    &&& b.component < header.siz.components@.len()
    &&& block_fits(width, area, b.x0 as nat, b.y0 as nat, w as nat, h as nat)
}

/// Whether every code-block contribution of the tile can be decoded and placed.
pub open spec fn tile_decodable(header: CodestreamHeader, blocks: Seq<DecodedCodeBlock>) -> bool {
    let width = header.siz.width as nat;
    let height = header.siz.height as nat;
    &&& width * height <= usize::MAX
    &&& forall|k: int| 0 <= k < blocks.len() ==> #[trigger] block_decodable(header, blocks[k], width, width * height)
}

/// The coefficients that code-block contribution `b` decodes to: zeros when it has no passes.
pub open spec fn block_values(header: CodestreamHeader, b: DecodedCodeBlock) -> Seq<i32> {
    let w = (b.x1 - b.x0) as nat;
    let h = (b.y1 - b.y0) as nat;
    if b.passes == 0 {
        Seq::new(w * h, |i: int| 0i32)
    } else {
        codeblock_coefficients(w, h, b.band, (guard_less_one(header) + block_step_exponent(header, b)) as u8,
            b.zero_bitplanes, b.passes, b.data@)
    }
}

/// The component planes after the contributions `blocks` are placed, one after the other, in
/// planes of zeros of `area` samples.
pub open spec fn tile_planes(header: CodestreamHeader, blocks: Seq<DecodedCodeBlock>, area: nat) -> Seq<Seq<i32>>
    decreases blocks.len(),
{
    if blocks.len() == 0 {
        Seq::new(header.siz.components@.len(), |c: int| Seq::new(area, |i: int| 0i32))
    } else {
        let ps = tile_planes(header, blocks.drop_last(), area);
        let b = blocks.last();
        ps.update(b.component as int, copy_rows(ps[b.component as int], header.siz.width as nat, b.x0 as nat, b.y0 as nat,
            (b.x1 - b.x0) as nat, block_values(header, b), (b.y1 - b.y0) as nat))
    }
}

/// The contents of each plane.
pub open spec fn planes_views(v: Seq<Vec<i32>>) -> Seq<Seq<i32>> {
    Seq::new(v.len(), |i: int| v[i]@)
}

/// A plane of `n` zeros.
fn zero_plane(n: usize) -> (v: Vec<i32>)
    ensures
        v@.len() == n,
        forall|i: int| 0 <= i < n ==> #[trigger] v@[i] == 0,
{
    let mut v: Vec<i32> = Vec::new();
    let mut i: usize = 0;
    while i < n
        invariant
            i <= n,
            v@.len() == i,
            forall|j: int| 0 <= j < i ==> #[trigger] v@[j] == 0,
        decreases n - i,
    {
        v.push(0);
        i = i + 1;
    }
    v
}

/// Decodes every code-block contribution and places it in its component's tile, which starts
/// out as zeros.
#[verifier::rlimit(100)]
pub fn decode_tile_components(header: &CodestreamHeader, packets: &DecodedTilePackets) -> (r: Result<Vec<DecodedTileCoefficients>>)
    ensures
        r is Ok <==> tile_decodable(*header, packets.codeblocks@),
        r matches Err(e) ==> e is DecodeFailed,
        r matches Ok(v) ==> v@.len() == header.siz.components@.len() && forall|i: int| 0 <= i < v@.len() ==>
            (#[trigger] v@[i]).component == i && v@[i].width == header.siz.width && v@[i].height == header.siz.height
            && v@[i].coefficients@.len() == v@[i].width * v@[i].height
            && v@[i].coefficients@ == tile_planes(*header, packets.codeblocks@, (header.siz.width * header.siz.height) as nat)[i],
{
    let width = header.siz.width as usize;
    let height = header.siz.height as usize;
    let area = match width.checked_mul(height) {
        Some(a) => a,
        None => { return Err(decode_failed("tile area exceeds usize")); },
    };
    let ghost blocks = packets.codeblocks@;
    let n = header.siz.components.len();
    let mut planes: Vec<Vec<i32>> = Vec::new();
    let mut c: usize = 0;
    while c < n
        invariant
            c <= n,
            planes@.len() == c,
            forall|i: int| 0 <= i < c ==> (#[trigger] planes@[i])@.len() == area,
            forall|i: int| 0 <= i < c ==> (#[trigger] planes@[i])@ == Seq::new(area as nat, |j: int| 0i32),
        decreases n - c,
    {
        let z = zero_plane(area);
        assert(z@ =~= Seq::new(area as nat, |j: int| 0i32));
        planes.push(z);
        c = c + 1;
    }
    proof {
        assert(blocks.take(0) =~= Seq::<DecodedCodeBlock>::empty());
        assert(planes_views(planes@) =~= tile_planes(*header, blocks.take(0), area as nat));
    }
    let steps = header.qcd.steps.len();
    let guard: u8 = if header.qcd.guard_bits >= 1 { header.qcd.guard_bits - 1 } else { 0 };
    let mut k: usize = 0;
    while k < packets.codeblocks.len()
        invariant
            blocks == packets.codeblocks@,
            planes@.len() == n,
            n == header.siz.components@.len(),
            area == width * height,
            width == header.siz.width,
            height == header.siz.height,
            steps == header.qcd.steps@.len(),
            guard == guard_less_one(*header),
            k <= blocks.len(),
            forall|i: int| 0 <= i < n ==> (#[trigger] planes@[i])@.len() == area,
            forall|j: int| 0 <= j < k ==> #[trigger] block_decodable(*header, blocks[j], width as nat, area as nat),
            planes_views(planes@) == tile_planes(*header, blocks.take(k as int), area as nat),
        decreases blocks.len() - k,
    {
        let block = &packets.codeblocks[k];
        proof {
            assert(blocks.take(k + 1).drop_last() =~= blocks.take(k as int));
            assert(blocks.take(k + 1).last() == blocks[k as int]);
        }
        if steps == 0 {
            assert(!block_decodable(*header, blocks[k as int], width as nat, area as nat));
            return Err(decode_failed("missing QCD step for decoded subband"));
        }
        let quant = header.qcd.steps[block.band_index % steps];
        if quant.exponent > 255 - guard {
            assert(!block_decodable(*header, blocks[k as int], width as nat, area as nat));
            return Err(decode_failed("code-block bit-plane count exceeds supported range"));
        }
        let max_bitplanes = guard + quant.exponent;
        if block.x1 < block.x0 || block.y1 < block.y0 {
            assert(!block_decodable(*header, blocks[k as int], width as nat, area as nat));
            return Err(decode_failed("decoded code-block has an inverted rectangle"));
        }
        let decoded = match decode_codeblock(
            (block.x1 - block.x0) as usize,
            (block.y1 - block.y0) as usize,
            block.band,
            max_bitplanes,
            block.zero_bitplanes,
            block.passes,
            block.data,
        ) {
            Ok(d) => d,
            Err(e) => {
                assert(!block_decodable(*header, blocks[k as int], width as nat, area as nat));
                return Err(e);
            },
        };
        if block.component >= n {
            assert(!block_decodable(*header, blocks[k as int], width as nat, area as nat));
            return Err(decode_failed("decoded code-block references invalid component"));
        }
        let ghost before = planes@;
        let mut plane = planes.remove(block.component);
        let ghost plane0 = plane@;
        let res = copy_block_to_tile(width, &mut plane, block.x0, block.y0, &decoded);
        planes.insert(block.component, plane);
        proof {
            assert(planes@ =~= before.update(block.component as int, plane));
            assert(plane0 == before[block.component as int]@);
            assert(decoded.coefficients@ == block_values(*header, *block)) by {
                if block.passes == 0 {
                    assert(decoded.coefficients@ =~= block_values(*header, *block));
                }
            }
            if res is Ok {
                assert(planes_views(planes@) =~= planes_views(before).update(block.component as int, plane@));
            }
        }
        match res {
            Ok(()) => {},
            Err(e) => {
                assert(!block_decodable(*header, blocks[k as int], width as nat, area as nat));
                return Err(e);
            },
        }
        k = k + 1;
    }
    let ghost fin = tile_planes(*header, blocks, area as nat);
    proof {
        assert(blocks.take(blocks.len() as int) =~= blocks);
        assert forall|i: int| 0 <= i < n implies (#[trigger] planes@[i])@ == fin[i] by {
            assert(planes_views(planes@)[i] == planes@[i]@);
        }
    }
    let mut out: Vec<DecodedTileCoefficients> = Vec::new();
    let mut planes = planes;
    let mut c: usize = n;
    while c > 0
        invariant
            c <= n,
            planes@.len() == c,
            out@.len() == n - c,
            area == width * height,
            width == header.siz.width,
            height == header.siz.height,
            n == header.siz.components@.len(),
            forall|i: int| 0 <= i < c ==> (#[trigger] planes@[i])@.len() == area,
            forall|i: int| 0 <= i < c ==> (#[trigger] planes@[i])@ == fin[i],
            forall|i: int| 0 <= i < out@.len() ==> (#[trigger] out@[i]).component == n - 1 - i
                && out@[i].width == width && out@[i].height == height && out@[i].coefficients@.len() == area
                && out@[i].coefficients@ == fin[n - 1 - i],
        decreases c,
    {
        let plane = planes.pop().unwrap();
        out.push(DecodedTileCoefficients { component: c - 1, width, height, coefficients: plane });
        c = c - 1;
    }
    let mut result: Vec<DecodedTileCoefficients> = Vec::new();
    while out.len() > 0
        invariant
            out@.len() + result@.len() == n,
            area == width * height,
            width == header.siz.width,
            height == header.siz.height,
            n == header.siz.components@.len(),
            forall|i: int| 0 <= i < out@.len() ==> (#[trigger] out@[i]).component == n - 1 - i
                && out@[i].width == width && out@[i].height == height && out@[i].coefficients@.len() == area
                && out@[i].coefficients@ == fin[n - 1 - i],
            forall|i: int| 0 <= i < result@.len() ==> (#[trigger] result@[i]).component == i
                && result@[i].width == width && result@[i].height == height && result@[i].coefficients@.len() == area
                && result@[i].coefficients@ == fin[i],
        decreases out@.len(),
    {
        let t = out.pop().unwrap();
        result.push(t);
    }
    Ok(result)
}

/// A sample after the inverse DC shift, clamped to `0..=255`.
pub open spec fn final_sample(s: i32) -> i32 {
    if s + 128 < 0 { 0 } else if s + 128 > 255 { 255 } else { (s + 128) as i32 }
}

/// Samples after the inverse DC shift and clamping.
pub open spec fn finalize_spec(s: Seq<i32>) -> Seq<i32> {
    Seq::new(s.len(), |i: int| final_sample(s[i]))
}

/// Undoes the DC shift of 8-bit samples and clamps them to `0..=255`.
pub fn finalize_i32_samples(samples: &[i32]) -> (r: Vec<i32>)
    ensures
        r@ == finalize_spec(samples@),
{
    let mut out: Vec<i32> = Vec::new();
    let mut i: usize = 0;
    while i < samples.len()
        invariant
            i <= samples@.len(),
            out@.len() == i,
            forall|j: int| 0 <= j < i ==> #[trigger] out@[j] == final_sample(samples@[j]),
        decreases samples@.len() - i,
    {
        let s = samples[i];
        let v: i32 = if s >= 127 { 255 } else if s < -128 { 0 } else { s + 128 };
        out.push(v);
        i = i + 1;
    }
    assert(out@ =~= finalize_spec(samples@));
    out
}

/// A copy of the samples.
fn copy_samples(samples: &[i32]) -> (r: Vec<i32>)
    ensures
        r@ == samples@,
{
    let mut out: Vec<i32> = Vec::new();
    let mut i: usize = 0;
    while i < samples.len()
        invariant
            i <= samples@.len(),
            out@ == samples@.subrange(0, i as int),
        decreases samples@.len() - i,
    {
        out.push(samples[i]);
        i = i + 1;
        assert(out@ =~= samples@.subrange(0, i as int));
    }
    assert(samples@.subrange(0, samples@.len() as int) =~= samples@);
    out
}

/// Whether a component can be reconstructed by the reversible path: no quantization and a
/// coefficient plane the size of the image.
pub open spec fn reversible_ok(header: CodestreamHeader, coefficients: Seq<i32>) -> bool {
    let w = header.siz.width as nat;
    let h = header.siz.height as nat;
    &&& header.qcd.style is NoQuantization
    &&& w * h <= usize::MAX
    &&& coefficients.len() == w * h
}

/// The centred samples that the inverse 5/3 transform gives for a component.
pub open spec fn reversible_plane(header: CodestreamHeader, coefficients: Seq<i32>) -> Seq<i32> {
    dwt_inverse(coefficients, header.siz.width as nat, header.siz.height as nat, header.cod.decomposition_levels as nat)
}

/// The inverse 5/3 transform of one component's coefficients, giving centred samples.
pub fn reconstruct_reversible_53_centered(header: &CodestreamHeader, coefficients: Vec<i32>) -> (r: Result<Vec<i32>>)
    ensures
        r is Ok <==> reversible_ok(*header, coefficients@),
        r matches Ok(v) ==> v@ == reversible_plane(*header, coefficients@) && v@.len() == coefficients@.len(),
        r matches Err(e) ==> if header.qcd.style is NoQuantization { e is EncodeFailed } else { e is DecodeFailed },
{
    proof {
        lemma_dwt_inverse_len(coefficients@, header.siz.width as nat, header.siz.height as nat,
            header.cod.decomposition_levels as nat);
    }
    if header.qcd.style != QuantizationStyle::NoQuantization {
        return Err(decode_failed("reversible 5/3 reconstruction expects no quantization"));
    }
    let mut coefficients = coefficients;
    inverse_53_2d_in_place(
        &mut coefficients,
        header.siz.width as usize,
        header.siz.height as usize,
        header.cod.decomposition_levels,
    )?;
    Ok(coefficients)
}

/// Plane `k` of the inverse reversible colour transform of three planes.
pub open spec fn rct_plane(y: Seq<i32>, db: Seq<i32>, dr: Seq<i32>, k: int) -> Seq<i32> {
    Seq::new(y.len(), |i: int| {
        let t = rct_inverse(y[i], db[i], dr[i]);
        if k == 0 { t.0 } else if k == 1 { t.1 } else { t.2 }
    })
}

/// The inverse reversible colour transform of three centred planes, in place: `(Y, Db, Dr)`
/// become `(R, G, B)`.
pub fn inverse_rct_centered(planes: &mut Vec<Vec<i32>>) -> (r: Result<()>)
    ensures
        r is Ok <==> old(planes)@.len() == 3 && old(planes)@[0]@.len() == old(planes)@[1]@.len()
            && old(planes)@[0]@.len() == old(planes)@[2]@.len(),
        r is Ok ==> final(planes)@.len() == 3 && forall|k: int| 0 <= k < 3 ==> (#[trigger] final(planes)@[k])@
            == rct_plane(old(planes)@[0]@, old(planes)@[1]@, old(planes)@[2]@, k),
        r is Err ==> final(planes)@ == old(planes)@,
        r matches Err(e) ==> e is DecodeFailed,
{
    if planes.len() != 3 {
        return Err(decode_failed("RCT requires exactly three components"));
    }
    let n = planes[0].len();
    if planes[1].len() != n || planes[2].len() != n {
        return Err(decode_failed("RCT component lengths differ"));
    }
    let ghost y = planes@[0]@;
    let ghost db = planes@[1]@;
    let ghost dr = planes@[2]@;
    let mut r_out: Vec<i32> = Vec::new();
    let mut g_out: Vec<i32> = Vec::new();
    let mut b_out: Vec<i32> = Vec::new();
    let mut i: usize = 0;
    while i < n
        invariant
            planes@.len() == 3,
            planes@[0]@ == y,
            planes@[1]@ == db,
            planes@[2]@ == dr,
            y.len() == n,
            db.len() == n,
            dr.len() == n,
            i <= n,
            r_out@.len() == i,
            g_out@.len() == i,
            b_out@.len() == i,
            forall|j: int| 0 <= j < i ==> #[trigger] r_out@[j] == rct_inverse(y[j], db[j], dr[j]).0,
            forall|j: int| 0 <= j < i ==> #[trigger] g_out@[j] == rct_inverse(y[j], db[j], dr[j]).1,
            forall|j: int| 0 <= j < i ==> #[trigger] b_out@[j] == rct_inverse(y[j], db[j], dr[j]).2,
        decreases n - i,
    {
        let (r, g, b) = inverse_rct_sample(planes[0][i], planes[1][i], planes[2][i]);
        r_out.push(r);
        g_out.push(g);
        b_out.push(b);
        i = i + 1;
    }
    planes.clear();
    planes.push(r_out);
    planes.push(g_out);
    planes.push(b_out);
    proof {
        assert(planes@[0]@ =~= rct_plane(y, db, dr, 0));
        assert(planes@[1]@ =~= rct_plane(y, db, dr, 1));
        assert(planes@[2]@ =~= rct_plane(y, db, dr, 2));
    }
    Ok(())
}

/// A full-size output component holding `data`, described by its SIZ entry.
pub open spec fn output_component(c: Component, siz: ComponentSiz, data: Seq<i32>, width: u32, height: u32) -> bool {
    &&& c.data@ == data
    &&& c.width == width
    &&& c.height == height
    &&& c.precision == siz.precision as u32
    &&& c.signed == siz.signed
    &&& c.dx == siz.dx as u32
    &&& c.dy == siz.dy as u32
}

/// Builds an output component from its SIZ entry.
fn make_component(siz: ComponentSiz, data: Vec<i32>, width: u32, height: u32) -> (c: Component)
    ensures
        output_component(c, siz, data@, width, height),
{
    Component {
        data,
        width,
        height,
        precision: siz.precision as u32,
        signed: siz.signed,
        dx: siz.dx as u32,
        dy: siz.dy as u32,
    }
}

/// Whether a single grayscale tile matches the header and can be reconstructed.
pub open spec fn grayscale_ok(header: CodestreamHeader, tile: DecodedTileCoefficients) -> bool {
    &&& header.siz.components@.len() >= 1
    &&& tile.component == 0
    &&& tile.width == header.siz.width
    &&& tile.height == header.siz.height
    &&& header.cod.transform is Reversible53
    &&& reversible_ok(header, tile.coefficients@)
}

/// Reconstructs a grayscale image from its single decoded component.
pub fn reconstruct_grayscale_image(header: &CodestreamHeader, tile: DecodedTileCoefficients) -> (r: Result<Image>)
    ensures
        r is Ok <==> grayscale_ok(*header, tile),
        r matches Ok(img) ==> img.width == header.siz.width && img.height == header.siz.height
            && img.colorspace == ColorSpace::Gray && img.components@.len() == 1
            && output_component(img.components@[0], header.siz.components@[0],
                finalize_spec(reversible_plane(*header, tile.coefficients@)), header.siz.width, header.siz.height)
            && img.components@[0].data@.len() == (header.siz.width as nat) * (header.siz.height as nat),
        r matches Err(e) ==> {
            if header.siz.components@.len() >= 1 && tile.component == 0 && tile.width == header.siz.width
                && tile.height == header.siz.height && header.cod.transform is Irreversible97 {
                e is UnsupportedFeature
            } else {
                e is DecodeFailed || e is EncodeFailed
            }
        },
{
    if header.siz.components.len() == 0 {
        return Err(decode_failed("missing decoded component header"));
    }
    let component = header.siz.components[0];
    let width = header.siz.width as usize;
    let height = header.siz.height as usize;
    if tile.component != 0 || tile.width != width || tile.height != height {
        return Err(decode_failed("decoded coefficient tile dimensions do not match SIZ"));
    }
    let samples = match header.cod.transform {
        WaveletTransform::Reversible53 => {
            let plane = reconstruct_reversible_53_centered(header, tile.coefficients)?;
            finalize_i32_samples(plane.as_slice())
        },
        WaveletTransform::Irreversible97 => {
            return Err(unsupported("irreversible 9/7 reconstruction is not available in the integer decoder"));
        },
    };
    let mut components: Vec<Component> = Vec::new();
    components.push(make_component(component, samples, header.siz.width, header.siz.height));
    Ok(Image { width: header.siz.width, height: header.siz.height, colorspace: ColorSpace::Gray, components })
}

/// The position of the first tile that holds component `k` (the third when none of the first two
/// does).
pub open spec fn tile_index(tiles: Seq<DecodedTileCoefficients>, k: usize) -> int {
    if tiles[0].component == k { 0 } else if tiles[1].component == k { 1 } else { 2 }
}

/// Whether one of the first three tiles holds component `k`.
pub open spec fn has_component(tiles: Seq<DecodedTileCoefficients>, k: usize) -> bool {
    exists|i: int| 0 <= i < 3 && (#[trigger] tiles[i]).component == k
}

/// Whether three tiles hold components 0, 1 and 2, in any order.
pub open spec fn tiles_contiguous(tiles: Seq<DecodedTileCoefficients>) -> bool {
    &&& tiles.len() == 3
    &&& has_component(tiles, 0)
    &&& has_component(tiles, 1)
    &&& has_component(tiles, 2)
}

/// The centred plane of component `k` of an sRGB image.
pub open spec fn srgb_centered(header: CodestreamHeader, tiles: Seq<DecodedTileCoefficients>, k: usize) -> Seq<i32> {
    reversible_plane(header, tiles[tile_index(tiles, k)].coefficients@)
}

/// The final plane `k` of an sRGB image: after the inverse colour transform when the header
/// asks for it, and the DC shift.
pub open spec fn srgb_plane(header: CodestreamHeader, tiles: Seq<DecodedTileCoefficients>, k: usize) -> Seq<i32> {
    let p0 = srgb_centered(header, tiles, 0);
    let p1 = srgb_centered(header, tiles, 1);
    let p2 = srgb_centered(header, tiles, 2);
    if header.cod.use_mct {
        finalize_spec(rct_plane(p0, p1, p2, k as int))
    } else {
        finalize_spec(srgb_centered(header, tiles, k))
    }
}

/// When the COD segment asks for no colour transform, plane `k` of an sRGB image is component
/// `k`'s own inverse 5/3 reconstruction, shifted up by 128 and clamped to `0..=255`: no other
/// component enters it.
pub proof fn lemma_srgb_plane_without_mct(header: CodestreamHeader, tiles: Seq<DecodedTileCoefficients>, k: usize)
    requires
        !header.cod.use_mct,
        k < 3,
    ensures
        ({
            let c = dwt_inverse(tiles[tile_index(tiles, k)].coefficients@, header.siz.width as nat,
                header.siz.height as nat, header.cod.decomposition_levels as nat);
            &&& srgb_plane(header, tiles, k).len() == c.len()
            &&& forall|i: int| 0 <= i < c.len() ==> #[trigger] srgb_plane(header, tiles, k)[i]
                == (if c[i] + 128 < 0 { 0 } else if c[i] + 128 > 255 { 255 } else { c[i] + 128 })
        }),
{
}

/// Without the colour transform, plane `k` depends on component `k` alone: two sets of tiles
/// whose component `k` holds the same coefficients give the same plane `k`.
pub proof fn lemma_srgb_plane_own_component(header: CodestreamHeader, a: Seq<DecodedTileCoefficients>,
    b: Seq<DecodedTileCoefficients>, k: usize)
    requires
        !header.cod.use_mct,
        k < 3,
        a[tile_index(a, k)].coefficients@ == b[tile_index(b, k)].coefficients@,
    ensures
        srgb_plane(header, a, k) == srgb_plane(header, b, k),
{
}

/// Whether three tiles can be reconstructed as an sRGB image.
pub open spec fn srgb_ok(header: CodestreamHeader, tiles: Seq<DecodedTileCoefficients>) -> bool {
    &&& header.siz.components@.len() == 3
    &&& tiles_contiguous(tiles)
    &&& header.cod.transform is Reversible53
    &&& forall|k: usize| k < 3 ==> reversible_ok(header, #[trigger] tiles[tile_index(tiles, k)].coefficients@)
}

/// The position of the first tile that holds component `k`.
fn find_tile(tiles: &Vec<DecodedTileCoefficients>, k: usize) -> (r: Option<usize>)
    requires
        tiles@.len() == 3,
    ensures
        r is Some <==> has_component(tiles@, k),
        r matches Some(i) ==> i == tile_index(tiles@, k) && tiles@[i as int].component == k,
{
    if tiles[0].component == k {
        Some(0)
    } else if tiles[1].component == k {
        Some(1)
    } else if tiles[2].component == k {
        Some(2)
    } else {
        assert forall|i: int| 0 <= i < 3 implies (#[trigger] tiles@[i]).component != k by {
            if i == 0 {} else if i == 1 {} else {}
        }
        None
    }
}

/// Reconstructs an sRGB image from its three decoded components.
pub fn reconstruct_srgb_image(header: &CodestreamHeader, tiles: Vec<DecodedTileCoefficients>) -> (r: Result<Image>)
    ensures
        r is Ok <==> srgb_ok(*header, tiles@),
        r matches Ok(img) ==> img.width == header.siz.width && img.height == header.siz.height
            && img.colorspace == ColorSpace::Srgb && img.components@.len() == 3
            && forall|k: int| 0 <= k < 3 ==> output_component(#[trigger] img.components@[k], header.siz.components@[k],
                srgb_plane(*header, tiles@, k as usize), header.siz.width, header.siz.height),
        r matches Ok(img) ==> forall|k: int| 0 <= k < 3 ==> (#[trigger] img.components@[k]).data@.len()
            == (header.siz.width as nat) * (header.siz.height as nat),
        r matches Err(e) ==> {
            if header.siz.components@.len() == 3 && tiles_contiguous(tiles@) && header.cod.transform is Irreversible97 {
                e is UnsupportedFeature
            } else {
                e is DecodeFailed || e is EncodeFailed
            }
        },
{
    if tiles.len() != 3 || header.siz.components.len() != 3 {
        return Err(decode_failed("sRGB JP2 must decode exactly three components"));
    }
    let mut index: Vec<usize> = Vec::new();
    let mut k: usize = 0;
    while k < 3
        invariant
            tiles@.len() == 3,
            k <= 3,
            index@.len() == k,
            forall|j: int| 0 <= j < k ==> #[trigger] index@[j] == tile_index(tiles@, j as usize)
                && tiles@[index@[j] as int].component == j,
            forall|j: usize| j < k ==> #[trigger] has_component(tiles@, j),
        decreases 3 - k,
    {
        match find_tile(&tiles, k) {
            Some(i) => { index.push(i); },
            None => { return Err(decode_failed("decoded sRGB components are not contiguous")); },
        }
        k = k + 1;
    }
    match header.cod.transform {
        WaveletTransform::Reversible53 => {},
        WaveletTransform::Irreversible97 => {
            return Err(unsupported("irreversible 9/7 reconstruction is not available in the integer decoder"));
        },
    }
    let ghost ts = tiles@;
    let mut planes: Vec<Vec<i32>> = Vec::new();
    let mut k: usize = 0;
    while k < 3
        invariant
            ts == tiles@,
            tiles@.len() == 3,
            header.cod.transform is Reversible53,
            index@.len() == 3,
            forall|j: int| 0 <= j < 3 ==> #[trigger] index@[j] == tile_index(tiles@, j as usize)
                && tiles@[index@[j] as int].component == j,
            k <= 3,
            planes@.len() == k,
            forall|j: int| 0 <= j < k ==> (#[trigger] planes@[j])@ == srgb_centered(*header, ts, j as usize),
            forall|j: int| 0 <= j < k ==> (#[trigger] planes@[j])@.len() == (header.siz.width as nat) * (header.siz.height as nat),
            forall|j: usize| j < k ==> reversible_ok(*header, #[trigger] ts[tile_index(ts, j)].coefficients@),
        decreases 3 - k,
    {
        let i = index[k];
        let coefficients = copy_samples(tiles[i].coefficients.as_slice());
        let plane = match reconstruct_reversible_53_centered(header, coefficients) {
            Ok(p) => p,
            Err(e) => {
                assert(!reversible_ok(*header, ts[tile_index(ts, k)].coefficients@));
                return Err(e);
            },
        };
        planes.push(plane);
        k = k + 1;
    }
    let ghost centered = planes@;
    if header.cod.use_mct {
        let _ = inverse_rct_centered(&mut planes);
    }
    let mut components: Vec<Component> = Vec::new();
    let mut k: usize = 0;
    while k < 3
        invariant
            planes@.len() == 3,
            header.siz.components@.len() == 3,
            k <= 3,
            components@.len() == k,
            forall|j: int| 0 <= j < 3 ==> (#[trigger] planes@[j])@ == if header.cod.use_mct {
                rct_plane(centered[0]@, centered[1]@, centered[2]@, j)
            } else {
                centered[j]@
            },
            forall|j: int| 0 <= j < 3 ==> (#[trigger] centered[j])@ == srgb_centered(*header, ts, j as usize),
            forall|j: int| 0 <= j < 3 ==> (#[trigger] centered[j])@.len() == (header.siz.width as nat) * (header.siz.height as nat),
            forall|j: int| 0 <= j < k ==> output_component(#[trigger] components@[j], header.siz.components@[j],
                srgb_plane(*header, ts, j as usize), header.siz.width, header.siz.height),
            forall|j: int| 0 <= j < k ==> (#[trigger] components@[j]).data@.len()
                == (header.siz.width as nat) * (header.siz.height as nat),
        decreases 3 - k,
    {
        let data = finalize_i32_samples(planes[k].as_slice());
        components.push(make_component(header.siz.components[k], data, header.siz.width, header.siz.height));
        k = k + 1;
    }
    Ok(Image { width: header.siz.width, height: header.siz.height, colorspace: ColorSpace::Srgb, components })
}

/// Whether decoded tiles can be reconstructed as an image in `colorspace`.
pub open spec fn image_ok(header: CodestreamHeader, colorspace: ColorSpace, tiles: Seq<DecodedTileCoefficients>) -> bool {
    match colorspace {
        ColorSpace::Gray => tiles.len() == 1 && grayscale_ok(header, tiles[0]),
        ColorSpace::Srgb => srgb_ok(header, tiles),
        _ => false,
    }
}

/// Reconstructs the image in `colorspace` from its decoded components.
pub fn reconstruct_image(header: &CodestreamHeader, colorspace: ColorSpace, tiles: Vec<DecodedTileCoefficients>) -> (r: Result<Image>)
    ensures
        r is Ok <==> image_ok(*header, colorspace, tiles@),
        r matches Ok(img) ==> img.colorspace == colorspace && img.width == header.siz.width
            && img.height == header.siz.height,
        r matches Ok(img) ==> colorspace == ColorSpace::Gray ==> img.components@.len() == 1
            && output_component(img.components@[0], header.siz.components@[0],
                finalize_spec(reversible_plane(*header, tiles@[0].coefficients@)), header.siz.width, header.siz.height),
        r matches Ok(img) ==> colorspace == ColorSpace::Srgb ==> img.components@.len() == 3
            && forall|k: int| 0 <= k < 3 ==> output_component(#[trigger] img.components@[k], header.siz.components@[k],
                srgb_plane(*header, tiles@, k as usize), header.siz.width, header.siz.height),
        r matches Ok(img) ==> forall|k: int| 0 <= k < img.components@.len() ==> (#[trigger] img.components@[k]).data@.len()
            == (header.siz.width as nat) * (header.siz.height as nat),
        r matches Err(e) ==> e is DecodeFailed || e is EncodeFailed || e is UnsupportedFeature,
{
    match colorspace {
        ColorSpace::Gray => {
            if tiles.len() != 1 {
                return Err(decode_failed("grayscale JP2 must decode exactly one component"));
            }
            let mut tiles = tiles;
            let tile = tiles.pop().unwrap();
            reconstruct_grayscale_image(header, tile)
        },
        ColorSpace::Srgb => reconstruct_srgb_image(header, tiles),
        _ => Err(decode_failed("unsupported JP2 colorspace for reconstruction")),
    }
}

} // verus!

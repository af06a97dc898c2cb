//! Tier-2 decoding of a tile-part payload: the LRCP packet walk over subbands and code-blocks.
use vstd::prelude::*;
use crate::decode_markers::{CodestreamHeader, ProgressionOrder};
use crate::error::{Jp2LamError, Result, decode_failed};
use crate::header::floor_log2;
use crate::plan_types::BandOrientation;
use crate::t2_read::{
    BioView, PacketBioReader, TagTreeReader, TgtNode, bio_commacode, bio_numpasses, bio_read, bio_read_bits,
    read_commacode, read_numpasses, tt_decode, tt_levels, tt_links_ok,
};

verus! {

// ----------------------------------------------------------------------------
// Geometry
// ----------------------------------------------------------------------------

/// `v` halved `k` times, rounding up.
pub open spec fn halve_n(v: nat, k: nat) -> nat
    decreases k,
{
    if k == 0 { v } else { (halve_n(v, (k - 1) as nat) + 1) / 2 }
}

/// The size of every resolution, lowest first: resolution `r` of `levels` is the image halved
/// `levels - r` times.
pub open spec fn ladder_spec(width: nat, height: nat, levels: nat) -> Seq<(u32, u32)> {
    Seq::new(levels + 1, |r: int| (halve_n(width, (levels - r) as nat) as u32, halve_n(height, (levels - r) as nat) as u32))
}

proof fn lemma_halve_n_bound(v: nat, k: nat)
    ensures
        halve_n(v, k) <= v,
    decreases k,
{
    if k > 0 {
        lemma_halve_n_bound(v, (k - 1) as nat);
    }
}

/// The sizes of the resolutions of an image with `levels` decompositions, lowest first.
pub fn resolution_ladder(width: u32, height: u32, levels: u8) -> (r: Vec<(u32, u32)>)
    ensures
        r@ == ladder_spec(width as nat, height as nat, levels as nat),
{
    let mut out: Vec<(u32, u32)> = Vec::new();
    let mut i: u16 = 0;
    while i <= levels as u16
        invariant
            i <= levels + 1,
            out@.len() == i,
            forall|j: int| 0 <= j < i ==> #[trigger] out@[j] == ladder_spec(width as nat, height as nat, levels as nat)[j],
        decreases levels + 1 - i,
    {
        let mut a = width;
        let mut b = height;
        let mut t: u8 = 0;
        let steps = levels - i as u8;
        while t < steps
            invariant
                t <= steps,
                a as nat == halve_n(width as nat, t as nat),
                b as nat == halve_n(height as nat, t as nat),
            decreases steps - t,
        {
            a = a / 2 + a % 2;
            b = b / 2 + b % 2;
            t = t + 1;
        }
        out.push((a, b));
        i = i + 1;
    }
    assert(out@ =~= ladder_spec(width as nat, height as nat, levels as nat));
    out
}

/// Decoder-side state of one code-block.
#[derive(Debug, Clone, Copy, PartialEq, Eq, Structural)]
pub struct BlockState {
    pub x0: u32,
    pub y0: u32,
    pub x1: u32,
    pub y1: u32,
    pub included: bool,
    pub numlenbits: u32,
    pub zero_bitplanes: Option<u32>,
}

pub open spec fn min_nat(a: nat, b: nat) -> nat {
    if a < b { a } else { b }
}

/// The code-blocks of one row, from `x` to `x1`, `cbw` wide but for the last.
pub open spec fn row_blocks(x: nat, x1: nat, cbw: nat, y0: nat, y1: nat) -> Seq<BlockState>
    decreases x1 - x,
{
    if x >= x1 || cbw == 0 {
        Seq::empty()
    } else {
        let e = min_nat(x + cbw, x1);
        seq![BlockState { x0: x as u32, y0: y0 as u32, x1: e as u32, y1: y1 as u32, included: false, numlenbits: 3,
            zero_bitplanes: None }] + row_blocks(e, x1, cbw, y0, y1)
    }
}

/// The code-blocks of the rectangle from row `y` down, in raster order.
pub open spec fn grid_blocks(x0: nat, x1: nat, cbw: nat, y: nat, y1: nat, cbh: nat) -> Seq<BlockState>
    decreases y1 - y,
{
    if y >= y1 || cbh == 0 {
        Seq::empty()
    } else {
        let e = min_nat(y + cbh, y1);
        row_blocks(x0, x1, cbw, y, e) + grid_blocks(x0, x1, cbw, e, y1, cbh)
    }
}

/// The number of `cb`-sized pieces that cover `[lo, hi)`.
pub open spec fn grid_count(lo: nat, hi: nat, cb: nat) -> nat {
    if hi <= lo || cb == 0 { 0 } else { ((hi - lo) + cb - 1) as nat / cb }
}

proof fn lemma_row_len(x: nat, x1: nat, cbw: nat, y0: nat, y1: nat)
    requires
        cbw >= 1,
    ensures
        row_blocks(x, x1, cbw, y0, y1).len() == grid_count(x, x1, cbw),
    decreases x1 - x,
{
    if x < x1 {
        let e = min_nat(x + cbw, x1);
        lemma_row_len(e, x1, cbw, y0, y1);
        if x + cbw >= x1 {
            assert(grid_count(x, x1, cbw) == 1) by (nonlinear_arith)
                requires x < x1, x + cbw >= x1, cbw >= 1, grid_count(x, x1, cbw) == ((x1 - x) + cbw - 1) as nat / cbw;
        } else {
            assert(grid_count(x, x1, cbw) == 1 + grid_count(x + cbw, x1, cbw)) by (nonlinear_arith)
                requires x + cbw < x1, cbw >= 1,
                    grid_count(x, x1, cbw) == ((x1 - x) + cbw - 1) as nat / cbw,
                    grid_count(x + cbw, x1, cbw) == ((x1 - x - cbw) + cbw - 1) as nat / cbw;
        }
    }
}

pub proof fn lemma_grid_len(x0: nat, x1: nat, cbw: nat, y: nat, y1: nat, cbh: nat)
    requires
        cbw >= 1,
        cbh >= 1,
    ensures
        grid_blocks(x0, x1, cbw, y, y1, cbh).len() == grid_count(x0, x1, cbw) * grid_count(y, y1, cbh),
    decreases y1 - y,
{
    let n = grid_count(x0, x1, cbw);
    if y < y1 {
        let e = min_nat(y + cbh, y1);
        lemma_row_len(x0, x1, cbw, y, e);
        lemma_grid_len(x0, x1, cbw, e, y1, cbh);
        if y + cbh >= y1 {
            assert(grid_count(y, y1, cbh) == 1) by (nonlinear_arith)
                requires y < y1, y + cbh >= y1, cbh >= 1, grid_count(y, y1, cbh) == ((y1 - y) + cbh - 1) as nat / cbh;
            assert(grid_count(e, y1, cbh) == 0);
            assert(n * 1 == n && n * 0 == 0) by (nonlinear_arith);
        } else {
            assert(grid_count(y, y1, cbh) == 1 + grid_count(y + cbh, y1, cbh)) by (nonlinear_arith)
                requires y + cbh < y1, cbh >= 1,
                    grid_count(y, y1, cbh) == ((y1 - y) + cbh - 1) as nat / cbh,
                    grid_count(y + cbh, y1, cbh) == ((y1 - y - cbh) + cbh - 1) as nat / cbh;
            let m = grid_count(y + cbh, y1, cbh);
            assert(n * (1 + m) == n + n * m) by (nonlinear_arith);
        }
    }
}

fn split_row(blocks: &mut Vec<BlockState>, x0: u32, x1: u32, cbw: u32, y0: u32, y1: u32)
    requires
        cbw >= 1,
    ensures
        final(blocks)@ == old(blocks)@ + row_blocks(x0 as nat, x1 as nat, cbw as nat, y0 as nat, y1 as nat),
{
    let ghost start = old(blocks)@;
    let mut bx = x0;
    while bx < x1
        invariant
            cbw >= 1,
            start + row_blocks(x0 as nat, x1 as nat, cbw as nat, y0 as nat, y1 as nat)
                == blocks@ + row_blocks(bx as nat, x1 as nat, cbw as nat, y0 as nat, y1 as nat),
        decreases x1 - bx,
    {
        let e = if x1 - bx <= cbw { x1 } else { bx + cbw };
        blocks.push(BlockState { x0: bx, y0, x1: e, y1, included: false, numlenbits: 3, zero_bitplanes: None });
        proof {
            let ghost tail = row_blocks(e as nat, x1 as nat, cbw as nat, y0 as nat, y1 as nat);
            assert(row_blocks(bx as nat, x1 as nat, cbw as nat, y0 as nat, y1 as nat)
                == seq![BlockState { x0: bx, y0, x1: e, y1, included: false, numlenbits: 3, zero_bitplanes: None }] + tail);
        }
        bx = e;
    }
}

/// The code-blocks of the rectangle `[x0, x1) x [y0, y1)`, `cbw` by `cbh` from its corner, in
/// raster order.
pub fn split_blocks(x0: u32, y0: u32, x1: u32, y1: u32, cbw: u32, cbh: u32) -> (r: Vec<BlockState>)
    requires
        cbw >= 1,
        cbh >= 1,
    ensures
        r@ == grid_blocks(x0 as nat, x1 as nat, cbw as nat, y0 as nat, y1 as nat, cbh as nat),
{
    let mut blocks: Vec<BlockState> = Vec::new();
    let mut by = y0;
    while by < y1
        invariant
            cbw >= 1,
            cbh >= 1,
            grid_blocks(x0 as nat, x1 as nat, cbw as nat, y0 as nat, y1 as nat, cbh as nat)
                == blocks@ + grid_blocks(x0 as nat, x1 as nat, cbw as nat, by as nat, y1 as nat, cbh as nat),
        decreases y1 - by,
    {
        let e = if y1 - by <= cbh { y1 } else { by + cbh };
        let ghost before = blocks@;
        split_row(&mut blocks, x0, x1, cbw, by, e);
        proof {
            let ghost rest = grid_blocks(x0 as nat, x1 as nat, cbw as nat, e as nat, y1 as nat, cbh as nat);
            let ghost row = row_blocks(x0 as nat, x1 as nat, cbw as nat, by as nat, e as nat);
            assert(grid_blocks(x0 as nat, x1 as nat, cbw as nat, by as nat, y1 as nat, cbh as nat) == row + rest);
            assert(before + (row + rest) =~= (before + row) + rest);
        }
        by = e;
    }
    assert(blocks@ + Seq::<BlockState>::empty() =~= blocks@);
    blocks
}


// ----------------------------------------------------------------------------
// Subbands
// ----------------------------------------------------------------------------

/// What the packet walk keeps of one subband: its code-blocks and its two tag trees.
pub struct BandView {
    pub component: usize,
    pub resolution: u8,
    pub band: BandOrientation,
    pub blocks: Seq<BlockState>,
    pub inclusion: Seq<TgtNode>,
    pub zbp: Seq<TgtNode>,
}

/// The tag trees are well linked and have a leaf for every code-block.
pub open spec fn band_ok(b: BandView) -> bool {
    &&& tt_links_ok(b.inclusion)
    &&& tt_links_ok(b.zbp)
    &&& b.blocks.len() <= b.inclusion.len()
    &&& b.blocks.len() <= b.zbp.len()
}

pub open spec fn max1(n: nat) -> nat {
    if n == 0 { 1 } else { n }
}

/// A subband rectangle: its resolution, orientation and corners.
#[derive(Debug, Clone, Copy, PartialEq, Eq, Structural)]
pub struct BandRect {
    pub resolution: u8,
    pub band: BandOrientation,
    pub x0: u32,
    pub y0: u32,
    pub x1: u32,
    pub y1: u32,
}

/// The code-block grid of the rectangle is small enough for its tag trees.
pub open spec fn rect_fits(r: BandRect, cbw: nat, cbh: nat) -> bool {
    crate::t2_read::tt_fits(max1(grid_count(r.x0 as nat, r.x1 as nat, cbw)), max1(grid_count(r.y0 as nat, r.y1 as nat, cbh)))
}

/// Every rectangle's code-block grid is small enough for its tag trees.
pub open spec fn rects_fit(rs: Seq<BandRect>, cbw: nat, cbh: nat) -> bool {
    forall|i: int| 0 <= i < rs.len() ==> #[trigger] rect_fits(rs[i], cbw, cbh)
}

/// The subband rectangles of an image with this header.
pub open spec fn header_rects(header: CodestreamHeader) -> Seq<BandRect> {
    band_rects(ladder_spec(header.siz.width as nat, header.siz.height as nat, header.cod.decomposition_levels as nat),
        header.cod.decomposition_levels as nat)
}

/// A subband before any packet: no code-block included yet, tag trees fresh.
pub open spec fn initial_band(component: usize, r: BandRect, cbw: nat, cbh: nat) -> BandView {
    let nbx = max1(grid_count(r.x0 as nat, r.x1 as nat, cbw));
    let nby = max1(grid_count(r.y0 as nat, r.y1 as nat, cbh));
    BandView {
        component,
        resolution: r.resolution,
        band: r.band,
        blocks: grid_blocks(r.x0 as nat, r.x1 as nat, cbw, r.y0 as nat, r.y1 as nat, cbh),
        inclusion: tt_levels(nbx, nby, 0),
        zbp: tt_levels(nbx, nby, 0),
    }
}

/// The subband rectangles of one component (B.5): LL of the lowest resolution, then HL, LH and HH
/// of each higher resolution.
pub open spec fn band_rects(ladder: Seq<(u32, u32)>, levels: nat) -> Seq<BandRect> {
    Seq::new(1 + 3 * levels, |i: int| if i == 0 {
        BandRect { resolution: 0, band: BandOrientation::Ll, x0: 0, y0: 0, x1: ladder[0].0, y1: ladder[0].1 }
    } else {
        let idx = (i - 1) / 3;
        let low = ladder[idx];
        let full = ladder[idx + 1];
        let k = (i - 1) % 3;
        if k == 0 {
            BandRect { resolution: (idx + 1) as u8, band: BandOrientation::Hl, x0: low.0, y0: 0, x1: full.0, y1: low.1 }
        } else if k == 1 {
            BandRect { resolution: (idx + 1) as u8, band: BandOrientation::Lh, x0: 0, y0: low.1, x1: low.0, y1: full.1 }
        } else {
            BandRect { resolution: (idx + 1) as u8, band: BandOrientation::Hh, x0: low.0, y0: low.1, x1: full.0, y1: full.1 }
        }
    })
}

/// The subbands of components `0..n`, component after component.
pub open spec fn all_bands(rects: Seq<BandRect>, n: nat, cbw: nat, cbh: nat) -> Seq<BandView>
    decreases n,
{
    if n == 0 {
        Seq::empty()
    } else {
        all_bands(rects, (n - 1) as nat, cbw, cbh) + Seq::new(rects.len(), |i: int| initial_band((n - 1) as usize, rects[i], cbw, cbh))
    }
}

/// Decoder-side state of one subband.
pub struct BandState {
    pub component: usize,
    pub resolution: u8,
    pub band: BandOrientation,
    pub blocks: Vec<BlockState>,
    pub inclusion: TagTreeReader,
    pub zero_bitplanes: TagTreeReader,
}

impl BandState {
    pub open spec fn view_of(&self) -> BandView {
        BandView {
            component: self.component,
            resolution: self.resolution,
            band: self.band,
            blocks: self.blocks@,
            inclusion: self.inclusion.nodes(),
            zbp: self.zero_bitplanes.nodes(),
        }
    }
}

pub open spec fn band_views(bands: Seq<BandState>) -> Seq<BandView> {
    Seq::new(bands.len(), |i: int| bands[i].view_of())
}

proof fn lemma_initial_band_ok(component: usize, r: BandRect, cbw: nat, cbh: nat)
    requires
        cbw >= 1,
        cbh >= 1,
        rect_fits(r, cbw, cbh),
    ensures
        band_ok(initial_band(component, r, cbw, cbh)),
{
    let nbx = max1(grid_count(r.x0 as nat, r.x1 as nat, cbw));
    let nby = max1(grid_count(r.y0 as nat, r.y1 as nat, cbh));
    lemma_grid_len(r.x0 as nat, r.x1 as nat, cbw, r.y0 as nat, r.y1 as nat, cbh);
    crate::t2_read::lemma_tt_levels_ok(nbx, nby);
    assert(grid_count(r.x0 as nat, r.x1 as nat, cbw) * grid_count(r.y0 as nat, r.y1 as nat, cbh) <= nbx * nby) by (nonlinear_arith)
        requires nbx >= grid_count(r.x0 as nat, r.x1 as nat, cbw), nby >= grid_count(r.y0 as nat, r.y1 as nat, cbh);
}

/// Appends the state of subband `r` of `component`, or fails when its code-block grid is too
/// large for a tag tree.
fn push_band(bands: &mut Vec<BandState>, component: usize, r: &BandRect, cbw: u32, cbh: u32) -> (res: Result<()>)
    requires
        cbw >= 1,
        cbh >= 1,
    ensures
        res is Ok <==> rect_fits(*r, cbw as nat, cbh as nat),
        res is Ok ==> band_views(final(bands)@) == band_views(old(bands)@).push(initial_band(component, *r, cbw as nat, cbh as nat)),
        res is Err ==> final(bands)@ == old(bands)@,
        res matches Err(e) ==> e is DecodeFailed,
{
    let nbx = grid_dims(r.x0, r.x1, cbw);
    let nby = grid_dims(r.y0, r.y1, cbh);
    if nbx >= 0x4000_0000 || nby >= 0x4000_0000 {
        proof {
            assert(nbx * nby >= 0x4000_0000) by (nonlinear_arith)
                requires nbx >= 1, nby >= 1, nbx >= 0x4000_0000 || nby >= 0x4000_0000;
        }
        return Err(decode_failed("code-block grid is too large"));
    }
    assert(nbx * nby < 0x1000_0000_0000_0000) by (nonlinear_arith)
        requires nbx < 0x4000_0000, nby < 0x4000_0000;
    if (nbx as u64) * (nby as u64) >= 0x4000_0000 {
        return Err(decode_failed("code-block grid is too large"));
    }
    let blocks = split_blocks(r.x0, r.y0, r.x1, r.y1, cbw, cbh);
    let inclusion = TagTreeReader::new(nbx, nby);
    let zero_bitplanes = TagTreeReader::new(nbx, nby);
    let ghost before = bands@;
    bands.push(BandState { component, resolution: r.resolution, band: r.band, blocks, inclusion, zero_bitplanes });
    assert(band_views(bands@) =~= band_views(before).push(initial_band(component, *r, cbw as nat, cbh as nat)));
    Ok(())
}

/// The number of `cb`-sized pieces that cover `[lo, hi)`, and 1 when there are none.
pub fn grid_dims(lo: u32, hi: u32, cb: u32) -> (n: usize)
    requires
        cb >= 1,
    ensures
        n == max1(grid_count(lo as nat, hi as nat, cb as nat)),
{
    if hi <= lo {
        return 1;
    }
    let span = (hi - lo) as u64;
    let q = (span + cb as u64 - 1) / cb as u64;
    assert(q <= span) by (nonlinear_arith)
        requires q == (span + cb - 1) / (cb as int), span >= 1, cb >= 1;
    let n = q as usize;
    if n == 0 { 1 } else { n }
}

/// The subband rectangles of a component of the given size.
pub fn build_band_rects(width: u32, height: u32, levels: u8) -> (r: Vec<BandRect>)
    ensures
        r@ == band_rects(ladder_spec(width as nat, height as nat, levels as nat), levels as nat),
{
    let ladder = resolution_ladder(width, height, levels);
    let ghost lad = ladder@;
    let mut rects: Vec<BandRect> = Vec::new();
    let ll = ladder[0];
    rects.push(BandRect { resolution: 0, band: BandOrientation::Ll, x0: 0, y0: 0, x1: ll.0, y1: ll.1 });
    let mut index: usize = 0;
    while index < levels as usize
        invariant
            ladder@ == lad,
            lad == ladder_spec(width as nat, height as nat, levels as nat),
            index <= levels,
            rects@.len() == 1 + 3 * index,
            forall|j: int| 0 <= j < rects@.len() ==> #[trigger] rects@[j] == band_rects(lad, levels as nat)[j],
        decreases levels - index,
    {
        let low = ladder[index];
        let full = ladder[index + 1];
        let res = (index + 1) as u8;
        rects.push(BandRect { resolution: res, band: BandOrientation::Hl, x0: low.0, y0: 0, x1: full.0, y1: low.1 });
        rects.push(BandRect { resolution: res, band: BandOrientation::Lh, x0: 0, y0: low.1, x1: low.0, y1: full.1 });
        rects.push(BandRect { resolution: res, band: BandOrientation::Hh, x0: low.0, y0: low.1, x1: full.0, y1: full.1 });
        index = index + 1;
    }
    assert(rects@ =~= band_rects(lad, levels as nat));
    rects
}

/// The states of all subbands of all components, before any packet.
pub fn build_band_states(header: &CodestreamHeader) -> (r: Result<Vec<BandState>>)
    requires
        header.cod.code_block_width >= 1,
        header.cod.code_block_height >= 1,
    ensures
        r is Ok <==> (header.siz.components@.len() == 0
            || rects_fit(header_rects(*header), header.cod.code_block_width as nat, header.cod.code_block_height as nat)),
        r matches Ok(v) ==> band_views(v@) == all_bands(header_rects(*header), header.siz.components@.len(),
            header.cod.code_block_width as nat, header.cod.code_block_height as nat),
        r matches Err(e) ==> e is DecodeFailed,
{
    let rects = build_band_rects(header.siz.width, header.siz.height, header.cod.decomposition_levels);
    let ghost rs = rects@;
    let cbw = header.cod.code_block_width;
    let cbh = header.cod.code_block_height;
    let n = header.siz.components.len();
    let mut bands: Vec<BandState> = Vec::new();
    let mut component: usize = 0;
    while component < n
        invariant
            rects@ == rs,
            cbw >= 1,
            cbh >= 1,
            component <= n,
            rs == header_rects(*header),
            n == header.siz.components@.len(),
            component > 0 ==> rects_fit(rs, cbw as nat, cbh as nat),
            cbw == header.cod.code_block_width,
            cbh == header.cod.code_block_height,
            band_views(bands@) == all_bands(rs, component as nat, cbw as nat, cbh as nat),
        decreases n - component,
    {
        let ghost base = band_views(bands@);
        let mut i: usize = 0;
        while i < rects.len()
            invariant
                rects@ == rs,
                cbw >= 1,
                cbh >= 1,
                i <= rs.len(),
                forall|j: int| 0 <= j < i ==> #[trigger] rect_fits(rs[j], cbw as nat, cbh as nat),
                component > 0 ==> rects_fit(rs, cbw as nat, cbh as nat),
                rs == header_rects(*header),
                n == header.siz.components@.len(),
                component < n,
                cbw == header.cod.code_block_width,
                cbh == header.cod.code_block_height,
                band_views(bands@) == base + Seq::new(i as nat, |j: int| initial_band(component, rs[j], cbw as nat, cbh as nat)),
            decreases rs.len() - i,
        {
            let ghost before = band_views(bands@);
            match push_band(&mut bands, component, &rects[i], cbw, cbh) {
                Ok(()) => {},
                Err(e) => {
                    assert(!rect_fits(rs[i as int], cbw as nat, cbh as nat));
                    return Err(e);
                },
            }
            i = i + 1;
            assert(band_views(bands@) =~= base + Seq::new(i as nat, |j: int| initial_band(component, rs[j], cbw as nat, cbh as nat)));
        }
        assert(Seq::new(rs.len(), |j: int| initial_band(component, rs[j], cbw as nat, cbh as nat))
            =~= Seq::new(rects@.len() as nat, |j: int| initial_band(component, rs[j], cbw as nat, cbh as nat)));
        component = component + 1;
    }
    Ok(bands)
}


// ----------------------------------------------------------------------------
// Code-block contributions (B.10.4 to B.10.7)
// ----------------------------------------------------------------------------

/// One code-block's contribution to a packet.
#[derive(Debug, Clone, Copy, PartialEq, Eq, Structural)]
pub struct Contribution {
    pub band_index: usize,
    pub block_index: usize,
    pub zero_bitplanes: u32,
    pub passes: u32,
    pub length: usize,
}

/// Reading code-block `bi`'s part of a packet header: its inclusion, its number of missing
/// most-significant bit-planes on first inclusion, its number of passes and its length in bytes.
pub open spec fn block_step(b: BandView, bi: nat, layer: u16, s: BioView, bytes: Seq<u8>) -> Option<(BandView, BioView, Option<(u32, u32, u32)>)> {
    let blk = b.blocks[bi as int];
    let inc: Option<(Seq<TgtNode>, BioView, bool)> = if blk.included {
        match bio_read(s, bytes) {
            None => None,
            Some((t, bit)) => Some((b.inclusion, t, bit != 0)),
        }
    } else {
        tt_decode(b.inclusion, bi, layer + 1, s, bytes)
    };
    match inc {
        None => None,
        Some((inc2, s1, included)) => {
            let b1 = BandView { inclusion: inc2, ..b };
            if !included {
                Some((b1, s1, None))
            } else {
                let zr: Option<(Seq<TgtNode>, BioView, u32)> = match blk.zero_bitplanes {
                    Some(v) => Some((b1.zbp, s1, v)),
                    None => match tt_decode(b1.zbp, bi, 999, s1, bytes) {
                        None => None,
                        Some((z2, s2, _)) => if z2[bi as int].known && z2[bi as int].value >= 0 {
                            Some((z2, s2, z2[bi as int].value as u32))
                        } else {
                            None
                        },
                    },
                };
                match zr {
                    None => None,
                    Some((z2, s2, zbp)) => match bio_numpasses(s2, bytes) {
                        None => None,
                        Some((s3, passes)) => match bio_commacode(s3, bytes, 0) {
                            None => None,
                            Some((s4, inc)) => {
                                let nlb = blk.numlenbits + inc;
                                let lb = nlb + floor_log2(passes as nat);
                                if lb > u32::MAX {
                                    None
                                } else {
                                    match bio_read_bits(s4, bytes, lb as nat) {
                                        None => None,
                                        Some((s5, length)) => if length == 0 {
                                            None
                                        } else {
                                            let blk2 = BlockState { included: true, numlenbits: nlb as u32, zero_bitplanes: Some(zbp), ..blk };
                                            Some((BandView { zbp: z2, blocks: b1.blocks.update(bi as int, blk2), ..b1 }, s5,
                                                Some((zbp, passes, length))))
                                        },
                                    }
                                }
                            },
                        },
                    },
                }
            }
        },
    }
}

/// The message with which a contribution whose length field reads zero is refused.
pub open spec fn zero_length_refusal() -> Seq<char> {
    "non-empty code-block contribution has zero byte length"@
}

/// Reading code-block `bi`'s part of a packet header gets as far as its length field, and that
/// field reads zero.
pub open spec fn block_zero_length(b: BandView, bi: nat, layer: u16, s: BioView, bytes: Seq<u8>) -> bool {
    let blk = b.blocks[bi as int];
    let inc: Option<(Seq<TgtNode>, BioView, bool)> = if blk.included {
        match bio_read(s, bytes) {
            None => None,
            Some((t, bit)) => Some((b.inclusion, t, bit != 0)),
        }
    } else {
        tt_decode(b.inclusion, bi, layer + 1, s, bytes)
    };
    match inc {
        None => false,
        Some((inc2, s1, included)) => {
            let b1 = BandView { inclusion: inc2, ..b };
            if !included {
                false
            } else {
                let zr: Option<(Seq<TgtNode>, BioView, u32)> = match blk.zero_bitplanes {
                    Some(v) => Some((b1.zbp, s1, v)),
                    None => match tt_decode(b1.zbp, bi, 999, s1, bytes) {
                        None => None,
                        Some((z2, s2, _)) => if z2[bi as int].known && z2[bi as int].value >= 0 {
                            Some((z2, s2, z2[bi as int].value as u32))
                        } else {
                            None
                        },
                    },
                };
                match zr {
                    None => false,
                    Some((z2, s2, zbp)) => match bio_numpasses(s2, bytes) {
                        None => false,
                        Some((s3, passes)) => match bio_commacode(s3, bytes, 0) {
                            None => false,
                            Some((s4, inc)) => {
                                let nlb = blk.numlenbits + inc;
                                let lb = nlb + floor_log2(passes as nat);
                                if lb > u32::MAX {
                                    false
                                } else {
                                    match bio_read_bits(s4, bytes, lb as nat) {
                                        None => false,
                                        Some((s5, length)) => length == 0,
                                    }
                                }
                            },
                        },
                    },
                }
            }
        },
    }
}

/// floor(log2(v)), and 0 for v <= 1.
fn floor_log2_u32(v: u32) -> (r: u32)
    ensures
        r == floor_log2(v as nat),
        r < 32,
{
    proof {
        assert(crate::decode_markers::pow2_int(32) == 0x1_0000_0000) by {
            reveal_with_fuel(crate::decode_markers::pow2_int, 33);
        }
        crate::header::lemma_floor_log2_bound(v as nat, 32);
    }
    let mut n = v;
    let mut k: u32 = 0;
    while n > 1
        invariant
            k + floor_log2(n as nat) == floor_log2(v as nat),
            floor_log2(v as nat) < 32,
        decreases n,
    {
        n = n / 2;
        k = k + 1;
    }
    k
}

impl BandState {
    /// Reads code-block `bi`'s part of a packet header of quality layer `layer`.
    fn block_contribution(&mut self, bio: &mut PacketBioReader, layer: u16, bi: usize) -> (r: Result<Option<(u32, u32, u32)>>)
        requires
            band_ok(old(self).view_of()),
            bi < old(self).view_of().blocks.len(),
            old(bio).wf(),
        ensures
            final(bio).data() == old(bio).data(),
            block_zero_length(old(self).view_of(), bi as nat, layer, old(bio).state(), old(bio).data())
                ==> (r matches Err(e) && e.spec_message() == zero_length_refusal()),
            match block_step(old(self).view_of(), bi as nat, layer, old(bio).state(), old(bio).data()) {
                None => r matches Err(e) && e is DecodeFailed,
                Some((b2, s2, c)) => r == Ok::<Option<(u32, u32, u32)>, Jp2LamError>(c) && final(self).view_of() == b2
                    && final(bio).state() == s2 && final(bio).wf() && band_ok(b2),
            },
    {
        let ghost b0 = self.view_of();
        let ghost s0 = bio.state();
        let blk = self.blocks[bi];
        let included = if blk.included {
            bio.read_bit()? != 0
        } else {
            self.inclusion.decode(bio, bi, layer as i32 + 1)?
        };
        if !included {
            return Ok(None);
        }
        let zbp = match blk.zero_bitplanes {
            Some(v) => v,
            None => {
                self.zero_bitplanes.decode(bio, bi, 999)?;
                let value = match self.zero_bitplanes.value(bi) {
                    Some(v) => v,
                    None => { return Err(decode_failed("zero-bitplane tag tree did not terminate")); },
                };
                if value < 0 {
                    return Err(decode_failed("negative zero-bitplane tag-tree value"));
                }
                value as u32
            },
        };
        let passes = read_numpasses(bio)?;
        let increment = read_commacode(bio)?;
        if increment > u32::MAX - blk.numlenbits {
            return Err(decode_failed("code-block length-bit count overflow"));
        }
        let nlb = blk.numlenbits + increment;
        let extra = floor_log2_u32(passes);
        if extra > u32::MAX - nlb {
            return Err(decode_failed("code-block length-bit count overflow"));
        }
        let length = bio.read_bits(nlb + extra)?;
        if length == 0 {
            return Err(decode_failed("non-empty code-block contribution has zero byte length"));
        }
        self.blocks.set(bi, BlockState { included: true, numlenbits: nlb, zero_bitplanes: Some(zbp), ..blk });
        Ok(Some((zbp, passes, length)))
    }
}


/// Reading the parts of subband `b`'s code-blocks from `bi` on, adding each inclusion to `acc`.
pub open spec fn band_walk(b: BandView, band_index: nat, bi: nat, layer: u16, s: BioView, bytes: Seq<u8>, acc: Seq<Contribution>) -> Option<(BandView, BioView, Seq<Contribution>)>
    decreases b.blocks.len() - bi,
{
    if bi >= b.blocks.len() {
        Some((b, s, acc))
    } else {
        match block_step(b, bi, layer, s, bytes) {
            None => None,
            Some((b2, s2, c)) => if b2.blocks.len() != b.blocks.len() {
                None
            } else {
                band_walk(b2, band_index, bi + 1, layer, s2, bytes, match c {
                    None => acc,
                    Some((z, p, l)) => acc.push(Contribution {
                        band_index: band_index as usize, block_index: bi as usize, zero_bitplanes: z, passes: p, length: l as usize,
                    }),
                })
            },
        }
    }
}

/// The walk over subband `b`'s code-blocks from `bi` on stops at a length field that reads zero.
pub open spec fn band_walk_zero(b: BandView, band_index: nat, bi: nat, layer: u16, s: BioView, bytes: Seq<u8>, acc: Seq<Contribution>) -> bool
    decreases b.blocks.len() - bi,
{
    if bi >= b.blocks.len() {
        false
    } else {
        match block_step(b, bi, layer, s, bytes) {
            None => block_zero_length(b, bi, layer, s, bytes),
            Some((b2, s2, c)) => if b2.blocks.len() != b.blocks.len() {
                false
            } else {
                band_walk_zero(b2, band_index, bi + 1, layer, s2, bytes, match c {
                    None => acc,
                    Some((z, p, l)) => acc.push(Contribution {
                        band_index: band_index as usize, block_index: bi as usize, zero_bitplanes: z, passes: p, length: l as usize,
                    }),
                })
            },
        }
    }
}

/// The indices of the subbands of `component` at `resolution`, from index `from` on.
pub open spec fn band_indices(bands: Seq<BandView>, component: usize, resolution: u8, from: nat) -> Seq<nat>
    decreases bands.len() - from,
{
    if from >= bands.len() {
        Seq::empty()
    } else if bands[from as int].component == component && bands[from as int].resolution == resolution {
        seq![from] + band_indices(bands, component, resolution, from + 1)
    } else {
        band_indices(bands, component, resolution, from + 1)
    }
}

/// Reading the parts of the subbands `idxs` (from the `k`-th on) of a packet header.
pub open spec fn bands_walk(bands: Seq<BandView>, idxs: Seq<nat>, k: nat, layer: u16, s: BioView, bytes: Seq<u8>, acc: Seq<Contribution>) -> Option<(Seq<BandView>, BioView, Seq<Contribution>)>
    decreases idxs.len() - k,
{
    if k >= idxs.len() {
        Some((bands, s, acc))
    } else {
        let bi = idxs[k as int];
        match band_walk(bands[bi as int], bi, 0, layer, s, bytes, acc) {
            None => None,
            Some((b2, s2, acc2)) => bands_walk(bands.update(bi as int, b2), idxs, k + 1, layer, s2, bytes, acc2),
        }
    }
}

/// The walk over the subbands `idxs` from the `k`-th on stops at a length field that reads zero.
pub open spec fn bands_walk_zero(bands: Seq<BandView>, idxs: Seq<nat>, k: nat, layer: u16, s: BioView, bytes: Seq<u8>, acc: Seq<Contribution>) -> bool
    decreases idxs.len() - k,
{
    if k >= idxs.len() {
        false
    } else {
        let bi = idxs[k as int];
        match band_walk(bands[bi as int], bi, 0, layer, s, bytes, acc) {
            None => band_walk_zero(bands[bi as int], bi, 0, layer, s, bytes, acc),
            Some((b2, s2, acc2)) => bands_walk_zero(bands.update(bi as int, b2), idxs, k + 1, layer, s2, bytes, acc2),
        }
    }
}

/// The subbands keep their number, their fields and their numbers of code-blocks.
pub open spec fn same_shape(a: Seq<BandView>, b: Seq<BandView>) -> bool {
    &&& a.len() == b.len()
    &&& forall|i: int| 0 <= i < a.len() ==> (#[trigger] b[i]).blocks.len() == a[i].blocks.len()
        && b[i].component == a[i].component && b[i].resolution == a[i].resolution && b[i].band == a[i].band
}

/// Every subband keeps its tag trees well linked.
pub open spec fn bands_ok(bands: Seq<BandView>) -> bool {
    forall|i: int| 0 <= i < bands.len() ==> #[trigger] band_ok(bands[i])
}

/// Reads the parts of subband `band_index`'s code-blocks of a packet header.
fn read_band_contributions(
    bio: &mut PacketBioReader,
    layer: u16,
    band_index: usize,
    bands: &mut Vec<BandState>,
    contributions: &mut Vec<Contribution>,
) -> (r: Result<()>)
    requires
        band_index < old(bands)@.len(),
        bands_ok(band_views(old(bands)@)),
        old(bio).wf(),
    ensures
        final(bio).data() == old(bio).data(),
        band_walk_zero(band_views(old(bands)@)[band_index as int], band_index as nat, 0, layer, old(bio).state(),
            old(bio).data(), old(contributions)@) ==> (r matches Err(e) && e.spec_message() == zero_length_refusal()),
        match band_walk(band_views(old(bands)@)[band_index as int], band_index as nat, 0, layer, old(bio).state(),
            old(bio).data(), old(contributions)@) {
            None => r matches Err(e) && e is DecodeFailed,
            Some((b2, s2, acc)) => r is Ok && band_views(final(bands)@) == band_views(old(bands)@).update(band_index as int, b2)
                && final(bio).state() == s2 && final(bio).wf() && final(contributions)@ == acc
                && bands_ok(band_views(final(bands)@)),
        },
        r is Ok ==> same_shape(band_views(old(bands)@), band_views(final(bands)@)),
        r is Ok ==> final(contributions)@.len() >= old(contributions)@.len(),
        r is Ok ==> forall|i: int| 0 <= i < old(contributions)@.len() ==> #[trigger] final(contributions)@[i] == old(contributions)@[i],
        r is Ok ==> forall|i: int| old(contributions)@.len() <= i < final(contributions)@.len() ==>
            (#[trigger] final(contributions)@[i]).band_index == band_index
            && final(contributions)@[i].block_index < band_views(old(bands)@)[band_index as int].blocks.len(),
{
    let ghost views0 = band_views(bands@);
    let mut band = bands.remove(band_index);
    let ghost rest = bands@;
    assert(band_ok(views0[band_index as int]));
    let n = band.blocks.len();
    let mut bi: usize = 0;
    let ghost target = band_walk(views0[band_index as int], band_index as nat, 0, layer, bio.state(), bio.data(), contributions@);
    let ghost target_zero = band_walk_zero(views0[band_index as int], band_index as nat, 0, layer, bio.state(), bio.data(), contributions@);
    while bi < n
        invariant
            target_zero == band_walk_zero(views0[band_index as int], band_index as nat, 0, layer, old(bio).state(), old(bio).data(),
                old(contributions)@),
            band_walk_zero(band.view_of(), band_index as nat, bi as nat, layer, bio.state(), bio.data(), contributions@) == target_zero,
            bands@ == rest,
            rest == old(bands)@.remove(band_index as int),
            band_index < old(bands)@.len(),
            views0 == band_views(old(bands)@),
            bands_ok(views0),
            target == band_walk(views0[band_index as int], band_index as nat, 0, layer, old(bio).state(), old(bio).data(),
                old(contributions)@),
            n == band.view_of().blocks.len(),
            bi <= n,
            band_ok(band.view_of()),
            bio.wf(),
            bio.data() == old(bio).data(),
            band.view_of().component == views0[band_index as int].component,
            band.view_of().resolution == views0[band_index as int].resolution,
            band.view_of().band == views0[band_index as int].band,
            band_walk(band.view_of(), band_index as nat, bi as nat, layer, bio.state(), bio.data(), contributions@) == target,
            contributions@.len() >= old(contributions)@.len(),
            forall|i: int| 0 <= i < old(contributions)@.len() ==> #[trigger] contributions@[i] == old(contributions)@[i],
            forall|i: int| old(contributions)@.len() <= i < contributions@.len() ==>
                (#[trigger] contributions@[i]).band_index == band_index && contributions@[i].block_index < n,
            n == views0[band_index as int].blocks.len(),
        decreases n - bi,
    {
        let c = match band.block_contribution(bio, layer, bi) {
            Ok(c) => c,
            Err(e) => {
                bands.insert(band_index, band);
                return Err(e);
            },
        };
        if let Some((z, p, l)) = c {
            contributions.push(Contribution { band_index, block_index: bi, zero_bitplanes: z, passes: p, length: l as usize });
        }
        bi = bi + 1;
    }
    bands.insert(band_index, band);
    proof {
        assert(bands@ =~= old(bands)@.update(band_index as int, band));
        assert(band_views(bands@) =~= views0.update(band_index as int, band.view_of()));
        assert forall|i: int| 0 <= i < views0.len() implies #[trigger] band_views(bands@)[i].blocks.len() == views0[i].blocks.len()
            && band_views(bands@)[i].component == views0[i].component && band_views(bands@)[i].resolution == views0[i].resolution
            && band_views(bands@)[i].band == views0[i].band by {
        }
        assert forall|i: int| 0 <= i < band_views(bands@).len() implies #[trigger] band_ok(band_views(bands@)[i]) by {
            if i != band_index {
                assert(band_views(bands@)[i] == views0[i]);
            }
        }
    }
    Ok(())
}

/// The indices of the subbands of `component` at `resolution`.
fn bands_for_component_resolution(bands: &Vec<BandState>, component: usize, resolution: u8) -> (r: Vec<usize>)
    ensures
        r@.len() == band_indices(band_views(bands@), component, resolution, 0).len(),
        forall|i: int| 0 <= i < r@.len() ==> r@[i] as nat == #[trigger] band_indices(band_views(bands@), component, resolution, 0)[i],
{
    let ghost views = band_views(bands@);
    let mut found: Vec<usize> = Vec::new();
    let mut j: usize = 0;
    while j < bands.len()
        invariant
            views == band_views(bands@),
            j <= bands@.len(),
            band_indices(views, component, resolution, 0) =~= Seq::new(found@.len(), |k: int| found@[k] as nat)
                + band_indices(views, component, resolution, j as nat),
        decreases bands@.len() - j,
    {
        if bands[j].component == component && bands[j].resolution == resolution {
            found.push(j);
        }
        proof {
            assert(views[j as int] == bands@[j as int].view_of());
        }
        j = j + 1;
    }
    found
}


// ----------------------------------------------------------------------------
// Packets (B.9, B.10)
// ----------------------------------------------------------------------------

/// One packet of the tile-part: where it sits in the progression and how long its parts are.
#[derive(Debug, Clone, Copy, PartialEq, Eq, Structural)]
pub struct DecodedPacket {
    pub layer: u16,
    pub resolution: u8,
    pub component: usize,
    pub header_len: usize,
    pub body_len: usize,
    pub contribution_count: usize,
}

/// One code-block contribution, with its bytes borrowed from the tile-part payload.
#[derive(Debug, Clone)]
pub struct DecodedCodeBlock<'a> {
    pub component: usize,
    pub band_index: usize,
    pub block_index: usize,
    pub resolution: u8,
    pub band: BandOrientation,
    pub x0: u32,
    pub y0: u32,
    pub x1: u32,
    pub y1: u32,
    pub zero_bitplanes: u32,
    pub passes: u32,
    pub data: &'a [u8],
}

/// A code-block contribution with the range of its bytes in the payload.
pub struct CodeBlockSpec {
    pub component: usize,
    pub band_index: usize,
    pub block_index: usize,
    pub resolution: u8,
    pub band: BandOrientation,
    pub x0: u32,
    pub y0: u32,
    pub x1: u32,
    pub y1: u32,
    pub zero_bitplanes: u32,
    pub passes: u32,
    pub data: (nat, nat),
}

/// The packets and code-block contributions of a tile-part.
pub struct DecodedTilePackets<'a> {
    pub packets: Vec<DecodedPacket>,
    pub codeblocks: Vec<DecodedCodeBlock<'a>>,
}

/// The total byte length of the contributions.
pub open spec fn sum_lengths(cs: Seq<Contribution>) -> nat
    decreases cs.len(),
{
    if cs.len() == 0 { 0 } else { sum_lengths(cs.drop_last()) + cs.last().length as nat }
}

/// The contributions placed one after the other from `start`, with their subbands' fields.
pub open spec fn contribution_blocks(bands: Seq<BandView>, cs: Seq<Contribution>, resolution: u8, start: nat) -> Seq<CodeBlockSpec> {
    Seq::new(cs.len(), |i: int| {
        let c = cs[i];
        let b = bands[c.band_index as int];
        let blk = b.blocks[c.block_index as int];
        CodeBlockSpec {
            component: b.component,
            band_index: c.band_index,
            block_index: c.block_index,
            resolution,
            band: b.band,
            x0: blk.x0,
            y0: blk.y0,
            x1: blk.x1,
            y1: blk.y1,
            zero_bitplanes: c.zero_bitplanes,
            passes: c.passes,
            data: (start + sum_lengths(cs.take(i)), start + sum_lengths(cs.take(i + 1))),
        }
    })
}

/// The bit reader's state at the start of a packet header.
pub open spec fn bio_start() -> BioView {
    BioView { pos: 0, reg: 0, ct: 0, prev_ff: false }
}

/// Reading the packet of `layer`, `resolution` and `component` that starts at `pos`: a presence
/// bit, the subbands' code-block parts, then the bodies in the same order.
pub open spec fn packet_step(bands: Seq<BandView>, payload: Seq<u8>, pos: nat, layer: u16, resolution: u8, component: usize)
    -> Option<(Seq<BandView>, nat, DecodedPacket, Seq<CodeBlockSpec>)>
{
    if pos > payload.len() {
        None
    } else {
        let bytes = payload.subrange(pos as int, payload.len() as int);
        match bio_read(bio_start(), bytes) {
            None => None,
            Some((s1, bit)) => {
                let walked = if bit != 0 {
                    bands_walk(bands, band_indices(bands, component, resolution, 0), 0, layer, s1, bytes, Seq::empty())
                } else {
                    Some((bands, s1, Seq::empty()))
                };
                match walked {
                    None => None,
                    Some((b2, s2, cs)) => {
                        let body_start = pos + s2.pos;
                        let body_end = body_start + sum_lengths(cs);
                        if body_end > payload.len() {
                            None
                        } else {
                            Some((b2, body_end, DecodedPacket {
                                layer, resolution, component,
                                header_len: s2.pos as usize,
                                body_len: sum_lengths(cs) as usize,
                                contribution_count: cs.len() as usize,
                            }, contribution_blocks(b2, cs, resolution, body_start)))
                        }
                    },
                }
            },
        }
    }
}

/// Reading the packet at `pos` stops at a length field that reads zero.
pub open spec fn packet_step_zero(bands: Seq<BandView>, payload: Seq<u8>, pos: nat, layer: u16, resolution: u8, component: usize) -> bool {
    if pos > payload.len() {
        false
    } else {
        let bytes = payload.subrange(pos as int, payload.len() as int);
        match bio_read(bio_start(), bytes) {
            None => false,
            Some((s1, bit)) => bit != 0
                && bands_walk_zero(bands, band_indices(bands, component, resolution, 0), 0, layer, s1, bytes, Seq::empty()),
        }
    }
}

/// The packet after `(layer, resolution, component)` in LRCP order.
pub open spec fn next_lrc(l: u16, r: u8, c: usize, resolutions: nat, components: nat) -> (u16, u8, usize) {
    if c + 1 < components { (l, r, (c + 1) as usize) }
    else if r + 1 < resolutions { (l, (r + 1) as u8, 0usize) }
    else { ((l + 1) as u16, 0u8, 0usize) }
}

/// Reading `remaining` packets in LRCP order from `(l, r, c)` at `pos`.
pub open spec fn packets_walk(bands: Seq<BandView>, payload: Seq<u8>, pos: nat, l: u16, r: u8, c: usize, remaining: nat,
    resolutions: nat, components: nat, pk: Seq<DecodedPacket>, cb: Seq<CodeBlockSpec>) -> Option<(nat, Seq<DecodedPacket>, Seq<CodeBlockSpec>)>
    decreases remaining,
{
    if remaining == 0 {
        Some((pos, pk, cb))
    } else {
        match packet_step(bands, payload, pos, l, r, c) {
            None => None,
            Some((b2, p2, dp, cbs)) => {
                let n = next_lrc(l, r, c, resolutions, components);
                packets_walk(b2, payload, p2, n.0, n.1, n.2, (remaining - 1) as nat, resolutions, components, pk.push(dp), cb + cbs)
            },
        }
    }
}

/// The walk over `remaining` packets stops at a length field that reads zero.
pub open spec fn packets_walk_zero(bands: Seq<BandView>, payload: Seq<u8>, pos: nat, l: u16, r: u8, c: usize, remaining: nat,
    resolutions: nat, components: nat, pk: Seq<DecodedPacket>, cb: Seq<CodeBlockSpec>) -> bool
    decreases remaining,
{
    if remaining == 0 {
        false
    } else {
        match packet_step(bands, payload, pos, l, r, c) {
            None => packet_step_zero(bands, payload, pos, l, r, c),
            Some((b2, p2, dp, cbs)) => {
                let n = next_lrc(l, r, c, resolutions, components);
                packets_walk_zero(b2, payload, p2, n.0, n.1, n.2, (remaining - 1) as nat, resolutions, components, pk.push(dp), cb + cbs)
            },
        }
    }
}

/// The header is inside what the packet walk supports.
pub open spec fn packet_scope_ok(header: CodestreamHeader) -> bool {
    &&& header.cod.progression_order == ProgressionOrder::Lrcp
    &&& (header.siz.components@.len() == 1 || header.siz.components@.len() == 3)
    &&& !header.cod.uses_precincts && !header.cod.sop_markers && !header.cod.eph_markers
    &&& !header.cod.code_block_style.bypass && !header.cod.code_block_style.reset_contexts
    &&& !header.cod.code_block_style.terminate_each_pass && !header.cod.code_block_style.vertical_causal
    &&& !header.cod.code_block_style.predictable_termination && !header.cod.code_block_style.segmentation_symbols
}

/// What parsing a tile-part payload gives: its packets and code-block contributions, when every
/// packet parses and they end exactly at the end of the payload.
pub open spec fn payload_spec(header: CodestreamHeader, payload: Seq<u8>) -> Option<(Seq<DecodedPacket>, Seq<CodeBlockSpec>)> {
    let n = header.siz.components@.len();
    let bands = all_bands(header_rects(header), n, header.cod.code_block_width as nat, header.cod.code_block_height as nat);
    let total = header.cod.layers * (header.cod.decomposition_levels + 1) * n;
    if !packet_scope_ok(header) || !rects_fit(header_rects(header), header.cod.code_block_width as nat, header.cod.code_block_height as nat) {
        None
    } else {
        match packets_walk(bands, payload, 0, 0, 0, 0, total as nat, (header.cod.decomposition_levels + 1) as nat, n, Seq::empty(), Seq::empty()) {
            Some((pos, pk, cb)) => if pos == payload.len() { Some((pk, cb)) } else { None },
            None => None,
        }
    }
}

/// The bytes that the first `k` packets take: each one's header and body.
pub open spec fn packet_bytes(pk: Seq<DecodedPacket>, k: nat) -> nat
    decreases k,
{
    if k == 0 { 0 } else { packet_bytes(pk, (k - 1) as nat) + pk[k - 1].header_len as nat + pk[k - 1].body_len as nat }
}

proof fn lemma_packet_bytes_same(a: Seq<DecodedPacket>, b: Seq<DecodedPacket>, k: nat)
    requires
        k <= a.len(),
        k <= b.len(),
        forall|j: int| 0 <= j < k ==> a[j] == b[j],
    ensures
        packet_bytes(a, k) == packet_bytes(b, k),
    decreases k,
{
    if k > 0 {
        lemma_packet_bytes_same(a, b, (k - 1) as nat);
    }
}

proof fn lemma_walk_accounting(bands: Seq<BandView>, payload: Seq<u8>, pos: nat, l: u16, r: u8, c: usize, remaining: nat,
    resolutions: nat, components: nat, pk: Seq<DecodedPacket>, cb: Seq<CodeBlockSpec>)
    requires
        packets_walk(bands, payload, pos, l, r, c, remaining, resolutions, components, pk, cb) is Some,
        payload.len() <= usize::MAX,
    ensures
        ({
            let (end, pk2, cb2) = packets_walk(bands, payload, pos, l, r, c, remaining, resolutions, components, pk, cb).unwrap();
            &&& pk2.len() == pk.len() + remaining
            &&& remaining > 0 ==> pos <= end <= payload.len()
            &&& remaining == 0 ==> end == pos
            &&& packet_bytes(pk2, pk2.len()) + pos == packet_bytes(pk, pk.len()) + end
        }),
    decreases remaining,
{
    if remaining > 0 {
        let (b2, p2, dp, cbs) = packet_step(bands, payload, pos, l, r, c).unwrap();
        let n = next_lrc(l, r, c, resolutions, components);
        let pk1 = pk.push(dp);
        lemma_walk_accounting(b2, payload, p2, n.0, n.1, n.2, (remaining - 1) as nat, resolutions, components, pk1, cb + cbs);
        assert(packet_bytes(pk1, pk.len()) == packet_bytes(pk, pk.len())) by {
            lemma_packet_bytes_same(pk1, pk, pk.len());
        }
        assert(packet_bytes(pk1, pk1.len()) == packet_bytes(pk, pk.len()) + p2 - pos);
    }
}

/// The packets that parsing a payload gives are one per layer, resolution and component, and
/// their headers and bodies take up the whole payload.
pub proof fn lemma_payload_accounting(header: CodestreamHeader, payload: Seq<u8>)
    requires
        payload_spec(header, payload) is Some,
        payload.len() <= usize::MAX,
    ensures
        ({
            let pk = payload_spec(header, payload).unwrap().0;
            &&& pk.len() == header.cod.layers * (header.cod.decomposition_levels + 1) * header.siz.components@.len()
            &&& packet_bytes(pk, pk.len()) == payload.len()
        }),
{
    let n = header.siz.components@.len();
    let bands = all_bands(header_rects(header), n, header.cod.code_block_width as nat, header.cod.code_block_height as nat);
    let total = header.cod.layers * (header.cod.decomposition_levels + 1) * n;
    let a = header.cod.layers as int;
    let b = header.cod.decomposition_levels + 1;
    assert(a * b >= 0) by (nonlinear_arith)
        requires a >= 0, b >= 0;
    assert(a * b * n >= 0) by (nonlinear_arith)
        requires a * b >= 0, n >= 0;
    lemma_walk_accounting(bands, payload, 0, 0, 0, 0, total as nat, (header.cod.decomposition_levels + 1) as nat, n,
        Seq::empty(), Seq::empty());
}

/// Where the packets of an in-scope header end in `payload`, when every packet parses.
pub open spec fn payload_walk_end(header: CodestreamHeader, payload: Seq<u8>) -> Option<nat> {
    let n = header.siz.components@.len();
    let bands = all_bands(header_rects(header), n, header.cod.code_block_width as nat, header.cod.code_block_height as nat);
    let total = header.cod.layers * (header.cod.decomposition_levels + 1) * n;
    if !packet_scope_ok(header) || !rects_fit(header_rects(header), header.cod.code_block_width as nat, header.cod.code_block_height as nat) {
        None
    } else {
        match packets_walk(bands, payload, 0, 0, 0, 0, total as nat, (header.cod.decomposition_levels + 1) as nat, n, Seq::empty(), Seq::empty()) {
            Some((pos, pk, cb)) => Some(pos),
            None => None,
        }
    }
}

/// Parsing the payload of an in-scope header stops at a code-block contribution whose length
/// field reads zero.
pub open spec fn payload_zero_length(header: CodestreamHeader, payload: Seq<u8>) -> bool {
    let n = header.siz.components@.len();
    let bands = all_bands(header_rects(header), n, header.cod.code_block_width as nat, header.cod.code_block_height as nat);
    let total = header.cod.layers * (header.cod.decomposition_levels + 1) * n;
    &&& packet_scope_ok(header)
    &&& rects_fit(header_rects(header), header.cod.code_block_width as nat, header.cod.code_block_height as nat)
    &&& packets_walk_zero(bands, payload, 0, 0, 0, 0, total as nat, (header.cod.decomposition_levels + 1) as nat, n, Seq::empty(), Seq::empty())
}

/// `d` is the contribution `s` places in `payload`.
pub open spec fn codeblock_matches(d: DecodedCodeBlock, payload: Seq<u8>, s: CodeBlockSpec) -> bool {
    &&& d.component == s.component && d.band_index == s.band_index && d.block_index == s.block_index
    &&& d.resolution == s.resolution && d.band == s.band
    &&& d.x0 == s.x0 && d.y0 == s.y0 && d.x1 == s.x1 && d.y1 == s.y1
    &&& d.zero_bitplanes == s.zero_bitplanes && d.passes == s.passes
    &&& s.data.0 <= s.data.1 <= payload.len()
    &&& d.data@ == payload.subrange(s.data.0 as int, s.data.1 as int)
}

fn validate_packet_scope(header: &CodestreamHeader) -> (r: Result<()>)
    ensures
        r is Ok <==> packet_scope_ok(*header),
        r matches Err(e) ==> e is DecodeFailed,
{
    match header.cod.progression_order {
        ProgressionOrder::Lrcp => {},
        _ => { return Err(decode_failed("only LRCP packet decoding is implemented")); },
    }
    if header.siz.components.len() != 1 && header.siz.components.len() != 3 {
        return Err(decode_failed("only one- and three-component packet decoding is implemented"));
    }
    if header.cod.uses_precincts || header.cod.sop_markers || header.cod.eph_markers {
        return Err(decode_failed("precinct, SOP, and EPH packet syntax is unsupported"));
    }
    let st = header.cod.code_block_style;
    if st.bypass || st.reset_contexts || st.terminate_each_pass || st.vertical_causal || st.predictable_termination
        || st.segmentation_symbols {
        return Err(decode_failed("non-default code-block style packet segmentation is unsupported"));
    }
    Ok(())
}


/// The contributions name existing subbands and code-blocks.
pub open spec fn contributions_ok(bands: Seq<BandView>, cs: Seq<Contribution>) -> bool {
    forall|i: int| 0 <= i < cs.len() ==> (#[trigger] cs[i]).band_index < bands.len()
        && cs[i].block_index < bands[cs[i].band_index as int].blocks.len()
}

proof fn lemma_band_indices_in_range(bands: Seq<BandView>, component: usize, resolution: u8, from: nat)
    ensures
        forall|i: int| 0 <= i < band_indices(bands, component, resolution, from).len()
            ==> #[trigger] band_indices(bands, component, resolution, from)[i] < bands.len(),
    decreases bands.len() - from,
{
    if from < bands.len() {
        lemma_band_indices_in_range(bands, component, resolution, from + 1);
        let rest = band_indices(bands, component, resolution, from + 1);
        if bands[from as int].component == component && bands[from as int].resolution == resolution {
            assert forall|i: int| 0 <= i < band_indices(bands, component, resolution, from).len()
                implies #[trigger] band_indices(bands, component, resolution, from)[i] < bands.len() by {
                if i > 0 {
                    assert(band_indices(bands, component, resolution, from)[i] == rest[i - 1]);
                }
            }
        }
    }
}

/// Reads the code-block parts of the subbands of `component` at `resolution` of a packet header.
fn walk_packet_bands(
    bands: &mut Vec<BandState>,
    bio: &mut PacketBioReader,
    layer: u16,
    component: usize,
    resolution: u8,
    contributions: &mut Vec<Contribution>,
) -> (r: Result<()>)
    requires
        bands_ok(band_views(old(bands)@)),
        old(bio).wf(),
        contributions_ok(band_views(old(bands)@), old(contributions)@),
    ensures
        final(bio).data() == old(bio).data(),
        bands_walk_zero(band_views(old(bands)@), band_indices(band_views(old(bands)@), component, resolution, 0), 0, layer,
            old(bio).state(), old(bio).data(), old(contributions)@) ==> (r matches Err(e) && e.spec_message() == zero_length_refusal()),
        match bands_walk(band_views(old(bands)@), band_indices(band_views(old(bands)@), component, resolution, 0), 0, layer,
            old(bio).state(), old(bio).data(), old(contributions)@) {
            None => r matches Err(e) && e is DecodeFailed,
            Some((b2, s2, cs)) => r is Ok && band_views(final(bands)@) == b2 && final(bio).state() == s2
                && final(contributions)@ == cs && final(bio).wf() && bands_ok(b2)
                && same_shape(band_views(old(bands)@), b2) && contributions_ok(b2, cs),
        },
{
    let ghost views0 = band_views(bands@);
    let idxs = bands_for_component_resolution(bands, component, resolution);
    let ghost gidx = band_indices(views0, component, resolution, 0);
    proof { lemma_band_indices_in_range(views0, component, resolution, 0); }
    let ghost target = bands_walk(views0, gidx, 0, layer, bio.state(), bio.data(), contributions@);
    let ghost target_zero = bands_walk_zero(views0, gidx, 0, layer, bio.state(), bio.data(), contributions@);
    let mut k: usize = 0;
    while k < idxs.len()
        invariant
            target_zero == bands_walk_zero(views0, gidx, 0, layer, old(bio).state(), old(bio).data(), old(contributions)@),
            bands_walk_zero(band_views(bands@), gidx, k as nat, layer, bio.state(), bio.data(), contributions@) == target_zero,
            idxs@.len() == gidx.len(),
            forall|i: int| 0 <= i < idxs@.len() ==> idxs@[i] as nat == #[trigger] gidx[i],
            forall|i: int| 0 <= i < gidx.len() ==> #[trigger] gidx[i] < views0.len(),
            k <= idxs@.len(),
            bio.wf(),
            bio.data() == old(bio).data(),
            bands_ok(band_views(bands@)),
            same_shape(views0, band_views(bands@)),
            contributions_ok(band_views(bands@), contributions@),
            bands_walk(band_views(bands@), gidx, k as nat, layer, bio.state(), bio.data(), contributions@) == target,
            views0 == band_views(old(bands)@),
            gidx == band_indices(views0, component, resolution, 0),
            target == bands_walk(views0, gidx, 0, layer, old(bio).state(), old(bio).data(), old(contributions)@),
        decreases idxs@.len() - k,
    {
        let bi = idxs[k];
        let ghost cbefore = contributions@;
        read_band_contributions(bio, layer, bi, bands, contributions)?;
        proof {
            assert forall|i: int| 0 <= i < contributions@.len() implies (#[trigger] contributions@[i]).band_index < band_views(bands@).len()
                && contributions@[i].block_index < band_views(bands@)[contributions@[i].band_index as int].blocks.len() by {
                if i < cbefore.len() {
                    assert(contributions@[i] == cbefore[i]);
                }
            }
        }
        k = k + 1;
    }
    Ok(())
}

/// Reads the packet of `layer`, `resolution` and `component` that starts at `pos`, appends its
/// code-block contributions, and returns where the next packet starts.
fn read_packet<'a>(
    bands: &mut Vec<BandState>,
    payload: &'a [u8],
    pos: usize,
    layer: u16,
    resolution: u8,
    component: usize,
    codeblocks: &mut Vec<DecodedCodeBlock<'a>>,
) -> (r: Result<(usize, DecodedPacket)>)
    requires
        bands_ok(band_views(old(bands)@)),
    ensures
        packet_step_zero(band_views(old(bands)@), payload@, pos as nat, layer, resolution, component)
            ==> (r matches Err(e) && e.spec_message() == zero_length_refusal()),
        match packet_step(band_views(old(bands)@), payload@, pos as nat, layer, resolution, component) {
            None => r matches Err(e) && e is DecodeFailed,
            Some((b2, p2, dp, cbs)) => r matches Ok((np, d)) && np == p2 && d == dp
                && band_views(final(bands)@) == b2 && bands_ok(b2)
                && same_shape(band_views(old(bands)@), b2)
                && final(codeblocks)@.len() == old(codeblocks)@.len() + cbs.len()
                && (forall|i: int| 0 <= i < old(codeblocks)@.len() ==> #[trigger] final(codeblocks)@[i] == old(codeblocks)@[i])
                && (forall|i: int| 0 <= i < cbs.len() ==>
                    #[trigger] codeblock_matches(final(codeblocks)@[old(codeblocks)@.len() + i], payload@, cbs[i])),
        },
{
    let ghost views0 = band_views(bands@);
    if pos > payload.len() {
        return Err(decode_failed("packet offset past tile payload"));
    }
    let rest = vstd::slice::slice_subrange(payload, pos, payload.len());
    let mut bio = PacketBioReader::new(rest);
    let present = bio.read_bit()? != 0;
    let mut contributions: Vec<Contribution> = Vec::new();
    let ghost s1 = bio.state();
    let ghost bytes = payload@.subrange(pos as int, payload@.len() as int);
    assert(rest@ == bytes);
    if present {
        walk_packet_bands(bands, &mut bio, layer, component, resolution, &mut contributions)?;
    }
    let ghost views1 = band_views(bands@);
    let ghost cs = contributions@;
    let header_len = bio.bytes_consumed();
    proof {
        if present {
            assert(bands_walk(views0, band_indices(views0, component, resolution, 0), 0, layer, s1, bytes, Seq::empty())
                == Some((views1, bio.state(), cs)));
        } else {
            assert(views1 == views0);
            assert(cs =~= Seq::<Contribution>::empty());
        }
        assert(packet_step(views0, payload@, pos as nat, layer, resolution, component) == (
            if pos + bio.state().pos + sum_lengths(cs) > payload@.len() {
                None
            } else {
                Some((views1, (pos + bio.state().pos + sum_lengths(cs)) as nat, DecodedPacket {
                    layer, resolution, component,
                    header_len: bio.state().pos as usize,
                    body_len: sum_lengths(cs) as usize,
                    contribution_count: cs.len() as usize,
                }, contribution_blocks(views1, cs, resolution, (pos + bio.state().pos) as nat)))
            }));
    }
    // The bodies follow the header, in the order of the contributions.
    let plen = payload.len();
    let mut body_len: usize = 0;
    let mut overflow = false;
    let mut i: usize = 0;
    while i < contributions.len()
        invariant
            i <= contributions@.len(),
            contributions@ == cs,
            plen == payload@.len(),
            !overflow ==> body_len as nat == sum_lengths(cs.take(i as int)) && body_len <= plen,
            overflow ==> sum_lengths(cs.take(i as int)) > plen,
        decreases contributions@.len() - i,
    {
        let l = contributions[i].length;
        proof {
            assert(cs.take(i + 1).drop_last() =~= cs.take(i as int));
            assert(cs.take(i + 1).last() == cs[i as int]);
        }
        if !overflow {
            if l > plen - body_len {
                overflow = true;
            } else {
                body_len = body_len + l;
            }
        }
        i = i + 1;
    }
    assert(cs.take(cs.len() as int) =~= cs);
    if overflow {
        return Err(decode_failed("packet body extends past tile payload"));
    }
    let body_start = pos + header_len;
    if body_len > payload.len() - body_start {
        return Err(decode_failed("packet body extends past tile payload"));
    }
    let mut offset = body_start;
    let mut j: usize = 0;
    let ghost cb0 = codeblocks@;
    while j < contributions.len()
        invariant
            j <= cs.len(),
            contributions@ == cs,
            band_views(bands@) == views1,
            contributions_ok(views1, cs),
            offset as nat == body_start + sum_lengths(cs.take(j as int)),
            body_start + sum_lengths(cs) <= payload@.len(),
            plen == payload@.len(),
            codeblocks@.len() == cb0.len() + j,
            forall|k: int| 0 <= k < cb0.len() ==> #[trigger] codeblocks@[k] == cb0[k],
            forall|k: int| 0 <= k < j ==> #[trigger] codeblock_matches(codeblocks@[cb0.len() + k], payload@,
                contribution_blocks(views1, cs, resolution, body_start as nat)[k]),
        decreases cs.len() - j,
    {
        let c = contributions[j];
        proof {
            assert(cs.take(j + 1).drop_last() =~= cs.take(j as int));
            assert(cs.take(j + 1).last() == cs[j as int]);
            assert(sum_lengths(cs.take(j + 1)) == sum_lengths(cs.take(j as int)) + cs[j as int].length);
            lemma_sum_lengths_prefix(cs, (j + 1) as nat);
        }
        let end = offset + c.length;
        let band = &bands[c.band_index];
        assert(band.view_of() == views1[c.band_index as int]);
        let blk = band.blocks[c.block_index];
        codeblocks.push(DecodedCodeBlock {
            component: band.component,
            band_index: c.band_index,
            block_index: c.block_index,
            resolution,
            band: band.band,
            x0: blk.x0,
            y0: blk.y0,
            x1: blk.x1,
            y1: blk.y1,
            zero_bitplanes: c.zero_bitplanes,
            passes: c.passes,
            data: vstd::slice::slice_subrange(payload, offset, end),
        });
        offset = end;
        j = j + 1;
    }
    let packet = DecodedPacket {
        layer, resolution, component, header_len, body_len, contribution_count: contributions.len(),
    };
    Ok((body_start + body_len, packet))
}

proof fn lemma_sum_lengths_grows(cs: Seq<Contribution>, k: nat)
    requires
        k <= cs.len(),
    ensures
        sum_lengths(cs.take(k as int)) <= sum_lengths(cs),
    decreases cs.len() - k,
{
    if k < cs.len() {
        lemma_sum_lengths_grows(cs, k + 1);
        assert(cs.take(k + 1int).drop_last() =~= cs.take(k as int));
    } else {
        assert(cs.take(k as int) =~= cs);
    }
}

proof fn lemma_sum_lengths_prefix(cs: Seq<Contribution>, k: nat)
    requires
        k <= cs.len(),
    ensures
        sum_lengths(cs.take(k as int)) <= sum_lengths(cs),
{
    lemma_sum_lengths_grows(cs, k);
}


proof fn lemma_all_bands_ok(rects: Seq<BandRect>, n: nat, cbw: nat, cbh: nat, i: int)
    requires
        cbw >= 1,
        cbh >= 1,
        rects_fit(rects, cbw, cbh),
        0 <= i < all_bands(rects, n, cbw, cbh).len(),
    ensures
        band_ok(all_bands(rects, n, cbw, cbh)[i]),
    decreases n,
{
    if n > 0 {
        let prev = all_bands(rects, (n - 1) as nat, cbw, cbh);
        if i < prev.len() {
            lemma_all_bands_ok(rects, (n - 1) as nat, cbw, cbh, i);
        } else {
            lemma_initial_band_ok((n - 1) as usize, rects[i - prev.len()], cbw, cbh);
        }
    }
}

/// Parses the packets of a tile-part payload in LRCP order (B.9, B.10), keeping each code-block
/// contribution's bytes borrowed from the payload.
pub fn parse_tile_part_payload<'a>(header: &CodestreamHeader, payload: &'a [u8]) -> (r: Result<DecodedTilePackets<'a>>)
    requires
        header.cod.code_block_width >= 1,
        header.cod.code_block_height >= 1,
    ensures
        match payload_spec(*header, payload@) {
            None => r matches Err(e) && e is DecodeFailed,
            Some((pk, cb)) => r matches Ok(t) && t.packets@ == pk && t.codeblocks@.len() == cb.len()
                && forall|i: int| 0 <= i < cb.len() ==> #[trigger] codeblock_matches(t.codeblocks@[i], payload@, cb[i]),
        },
        payload_zero_length(*header, payload@) ==> (r matches Err(e) && e.spec_message() == zero_length_refusal()),
        payload_walk_end(*header, payload@) matches Some(end) && end != payload@.len() ==> (r matches Err(e)
            && e.spec_message() == "tile payload has trailing bytes after packet parse"@),
{
    validate_packet_scope(header)?;
    let mut bands = build_band_states(header)?;
    let ghost n = header.siz.components@.len();
    let ghost bands0 = band_views(bands@);
    proof {
        assert forall|i: int| 0 <= i < bands0.len() implies #[trigger] band_ok(bands0[i]) by {
            lemma_all_bands_ok(header_rects(*header), n, header.cod.code_block_width as nat,
                header.cod.code_block_height as nat, i);
        }
    }
    let layers = header.cod.layers as usize;
    let resolutions = header.cod.decomposition_levels as usize + 1;
    let components = header.siz.components.len();
    assert(layers * resolutions <= 65535 * 256) by (nonlinear_arith)
        requires layers <= 65535, resolutions <= 256;
    assert(layers * resolutions * components <= 65535 * 256 * 3) by (nonlinear_arith)
        requires layers * resolutions <= 65535 * 256, components <= 3;
    let total = layers * resolutions * components;
    let ghost target = packets_walk(bands0, payload@, 0, 0, 0, 0, total as nat, resolutions as nat, components as nat,
        Seq::empty(), Seq::empty());
    assert(total == header.cod.layers * (header.cod.decomposition_levels + 1) * n);
    assert(payload_spec(*header, payload@) == (match target {
        Some((p, pk, cb)) => if p == payload@.len() { Some((pk, cb)) } else { None },
        None => None,
    }));
    assert(payload_walk_end(*header, payload@) == (match target {
        Some((p, pk, cb)) => Some(p),
        None => None::<nat>,
    }));
    let ghost target_zero = packets_walk_zero(bands0, payload@, 0, 0, 0, 0, total as nat, resolutions as nat, components as nat,
        Seq::empty(), Seq::empty());
    assert(payload_zero_length(*header, payload@) == target_zero);
    let mut pos: usize = 0;
    let mut packets: Vec<DecodedPacket> = Vec::new();
    let mut codeblocks: Vec<DecodedCodeBlock<'a>> = Vec::new();
    let ghost mut cbs: Seq<CodeBlockSpec> = Seq::empty();
    let mut l: u16 = 0;
    let mut res: u8 = 0;
    let mut comp: usize = 0;
    let mut done: usize = 0;
    while done < total
        invariant
            done <= total,
            resolutions >= 1,
            resolutions <= 256,
            components >= 1,
            bands_ok(band_views(bands@)),
            packets_walk(band_views(bands@), payload@, pos as nat, l, res, comp, (total - done) as nat, resolutions as nat,
                components as nat, packets@, cbs) == target,
            codeblocks@.len() == cbs.len(),
            forall|i: int| 0 <= i < cbs.len() ==> #[trigger] codeblock_matches(codeblocks@[i], payload@, cbs[i]),
            (res as nat) < resolutions,
            comp < components,
            l as nat * resolutions * components + res as nat * components + comp == done,
            total == header.cod.layers * resolutions * components,
            resolutions == header.cod.decomposition_levels + 1,
            components == header.siz.components@.len(),
            target == packets_walk(bands0, payload@, 0, 0, 0, 0, total as nat, resolutions as nat, components as nat,
                Seq::empty(), Seq::empty()),
            payload_walk_end(*header, payload@) == (match target {
                Some((p, pk, cb)) => Some(p),
                None => None::<nat>,
            }),
            payload_zero_length(*header, payload@) == target_zero,
            packets_walk_zero(band_views(bands@), payload@, pos as nat, l, res, comp, (total - done) as nat, resolutions as nat,
                components as nat, packets@, cbs) == target_zero,
            payload_spec(*header, payload@) == (match target {
                Some((p, pk, cb)) => if p == payload@.len() { Some((pk, cb)) } else { None },
                None => None,
            }),
        decreases total - done,
    {
        let ghost views_before = band_views(bands@);
        let (np, packet) = read_packet(&mut bands, payload, pos, l, res, comp, &mut codeblocks)?;
        proof {
            let step = packet_step(views_before, payload@, pos as nat, l, res, comp).unwrap();
            assert forall|i: int| 0 <= i < cbs.len() + step.3.len() implies #[trigger] codeblock_matches(codeblocks@[i], payload@, (cbs + step.3)[i]) by {
                if i >= cbs.len() {
                    assert(codeblock_matches(codeblocks@[cbs.len() + (i - cbs.len())], payload@, step.3[i - cbs.len()]));
                }
            }
            cbs = cbs + step.3;
        }
        packets.push(packet);
        pos = np;
        proof {
            assert(l < header.cod.layers) by (nonlinear_arith)
                requires l as nat * resolutions * components + res as nat * components + comp == done,
                    done < total, total == header.cod.layers * resolutions * components, resolutions >= 1, components >= 1,
                    (res as nat) < resolutions, comp < components;
        }
        if comp + 1 < components {
            comp = comp + 1;
        } else if (res as usize) + 1 < resolutions {
            proof {
                assert((res as nat + 1) * components == res as nat * components + components) by (nonlinear_arith);
            }
            res = res + 1;
            comp = 0;
        } else {
            proof {
                assert((l as nat + 1) * resolutions * components == l as nat * resolutions * components + resolutions * components) by (nonlinear_arith);
                assert((resolutions - 1) * components + components == resolutions * components) by (nonlinear_arith)
                    requires resolutions >= 1;
            }
            l = l + 1;
            res = 0;
            comp = 0;
        }
        done = done + 1;
    }
    if pos != payload.len() {
        return Err(decode_failed("tile payload has trailing bytes after packet parse"));
    }
    Ok(DecodedTilePackets { packets, codeblocks })
}

} // verus!

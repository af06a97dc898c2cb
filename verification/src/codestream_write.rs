//! Assembling a codestream from its parts: the tile-part payload of packets, the SOT segment, and
//! the whole codestream from SOC to EOC; and taking a single-tile codestream back apart.
use vstd::prelude::*;
use crate::bytes::{be16, push_all, push_u16, push_u32, u16_be, u32_be};
use crate::codestream::{CodestreamSpec, codestream_spec, parse_codestream_view, tile_part_matches};
use crate::decode::range_bytes;
use crate::decode_markers::{MARKER_COD, MARKER_EOC, MARKER_QCD, MARKER_SIZ, MARKER_SOC, MARKER_SOD, MARKER_SOT, QuantizationStyle};
use crate::error::{Result, encode_failed};
use crate::markers::{cod_spec, encode_cod, encode_qcd, encode_siz, qcd_spec, siz_spec};
use crate::plan::EncodingPlan;
use crate::plan_types::TilePartHeader;

verus! {

/// The byte strings one after the other.
pub open spec fn concat(s: Seq<Seq<u8>>) -> Seq<u8>
    decreases s.len(),
{
    if s.len() == 0 { Seq::empty() } else { concat(s.drop_last()) + s.last() }
}

/// The contents of each vector.
pub open spec fn views(v: Seq<Vec<u8>>) -> Seq<Seq<u8>> {
    Seq::new(v.len(), |i: int| v[i]@)
}

proof fn lemma_views_push(v: Seq<Vec<u8>>, x: Vec<u8>)
    ensures
        views(v.push(x)) == views(v).push(x@),
{
    assert(views(v.push(x)) =~= views(v).push(x@));
}

proof fn lemma_concat_prefix(s: Seq<Seq<u8>>, k: int)
    requires
        0 <= k < s.len(),
    ensures
        concat(s.subrange(0, k + 1)) == concat(s.subrange(0, k)) + s[k],
{
    assert(s.subrange(0, k + 1).drop_last() =~= s.subrange(0, k));
}

/// The packets of a tile-part, one after the other.
#[derive(Debug, Clone)]
pub struct TilePartPayload {
    packets: Vec<Vec<u8>>,
}

impl TilePartPayload {
    /// The packets' bytes.
    pub closed spec fn packet_views(self) -> Seq<Seq<u8>> {
        views(self.packets@)
    }

    /// The payload's bytes.
    pub open spec fn bytes(self) -> Seq<u8> {
        concat(self.packet_views())
    }

    /// A payload holding `bytes` as one opaque packet.
    pub fn from_raw_bytes(bytes: Vec<u8>) -> (p: Self)
        ensures
            p.packet_views() == seq![bytes@],
    {
        let mut packets: Vec<Vec<u8>> = Vec::new();
        packets.push(bytes);
        let p = TilePartPayload { packets };
        assert(p.packet_views() =~= seq![p.packets@[0]@]);
        p
    }

    /// The number of packets.
    pub fn packet_count(&self) -> (n: usize)
        ensures
            n == self.packet_views().len(),
    {
        self.packets.len()
    }

    /// The total number of bytes, or `None` when it exceeds `usize`.
    pub fn byte_len(&self) -> (n: Option<usize>)
        ensures
            n is Some <==> self.bytes().len() <= usize::MAX,
            n matches Some(k) ==> k == self.bytes().len(),
    {
        let mut total: usize = 0;
        let mut i: usize = 0;
        let ghost pv = self.packet_views();
        while i < self.packets.len()
            invariant
                pv == self.packet_views(),
                pv.len() == self.packets@.len(),
                i <= pv.len(),
                total == concat(pv.subrange(0, i as int)).len(),
            decreases pv.len() - i,
        {
            proof { lemma_concat_prefix(pv, i as int); lemma_concat_len_mono(pv, i as int + 1); }
            let l = self.packets[i].len();
            if total > usize::MAX - l {
                return None;
            }
            total = total + l;
            i = i + 1;
        }
        assert(pv.subrange(0, pv.len() as int) =~= pv);
        Some(total)
    }

    /// Appends the payload's bytes to `out`.
    pub fn write_to(&self, out: &mut Vec<u8>)
        ensures
            final(out)@ == old(out)@ + self.bytes(),
    {
        let ghost pv = self.packet_views();
        let ghost start = out@;
        let mut i: usize = 0;
        while i < self.packets.len()
            invariant
                pv == self.packet_views(),
                pv.len() == self.packets@.len(),
                i <= pv.len(),
                out@ == start + concat(pv.subrange(0, i as int)),
            decreases pv.len() - i,
        {
            proof { lemma_concat_prefix(pv, i as int); }
            push_all(out, self.packets[i].as_slice());
            assert(out@ =~= start + concat(pv.subrange(0, i + 1)));
            i = i + 1;
        }
        assert(pv.subrange(0, pv.len() as int) =~= pv);
    }
}

proof fn lemma_concat_len_mono(s: Seq<Seq<u8>>, k: int)
    requires
        0 <= k <= s.len(),
    ensures
        concat(s.subrange(0, k)).len() <= concat(s).len(),
    decreases s.len() - k,
{
    if k < s.len() {
        lemma_concat_prefix(s, k);
        lemma_concat_len_mono(s, k + 1);
    } else {
        assert(s.subrange(0, k) =~= s);
    }
}

/// Builds a tile-part payload packet by packet.
#[derive(Debug, Clone)]
pub struct PacketSequenceBuilder {
    packets: Vec<Vec<u8>>,
}

impl PacketSequenceBuilder {
    /// The packets so far.
    pub closed spec fn packet_views(self) -> Seq<Seq<u8>> {
        views(self.packets@)
    }

    /// A builder with no packets.
    pub fn new() -> (b: Self)
        ensures
            b.packet_views() == Seq::<Seq<u8>>::empty(),
    {
        let b = PacketSequenceBuilder { packets: Vec::new() };
        assert(b.packet_views() =~= Seq::<Seq<u8>>::empty());
        b
    }

    /// Adds a packet made of a header and a body.
    pub fn push_header_body_packet(self, header: Vec<u8>, body: Vec<u8>) -> (b: Self)
        ensures
            b.packet_views() == self.packet_views().push(header@ + body@),
    {
        let mut packet = header;
        push_all(&mut packet, body.as_slice());
        let mut packets = self.packets;
        let ghost before = packets@;
        packets.push(packet);
        proof { lemma_views_push(before, packet); }
        PacketSequenceBuilder { packets }
    }

    /// Adds a packet given as its bytes.
    pub fn push_opaque_packet(self, bytes: Vec<u8>) -> (b: Self)
        ensures
            b.packet_views() == self.packet_views().push(bytes@),
    {
        let mut packets = self.packets;
        let ghost before = packets@;
        packets.push(bytes);
        proof { lemma_views_push(before, bytes); }
        PacketSequenceBuilder { packets }
    }

    /// The payload of the packets added.
    pub fn finish_payload(self) -> (p: TilePartPayload)
        ensures
            p.packet_views() == self.packet_views(),
    {
        TilePartPayload { packets: self.packets }
    }
}

/// One tile-part: its SOT fields, its header segments and its payload.
#[derive(Debug, Clone)]
pub struct TilePart {
    pub header: TilePartHeader,
    pub header_segments: Vec<Vec<u8>>,
    pub payload: TilePartPayload,
}

/// A codestream in parts: the main-header segments and the tile-parts.
#[derive(Debug, Clone)]
pub struct CodestreamParts {
    pub main_header_segments: Vec<Vec<u8>>,
    pub tile_parts: Vec<TilePart>,
}

/// Psot of a tile-part: the SOT segment, the header segments, SOD and the payload.
pub open spec fn psot_spec(t: TilePart) -> int {
    (12 + concat(views(t.header_segments@)).len() + 2 + t.payload.bytes().len()) as int
}

/// The SOT segment of a tile-part whose length is `psot`.
pub open spec fn sot_spec(t: TilePart, psot: u32) -> Seq<u8> {
    u16_be(MARKER_SOT) + u16_be(10) + u16_be(t.header.tile_index) + u32_be(psot)
        + seq![t.header.part_index, t.header.total_parts]
}

/// The bytes of a tile-part: SOT, its header segments, SOD and its payload; `None` when Psot
/// does not fit in 32 bits.
pub open spec fn tile_part_spec(t: TilePart) -> Option<Seq<u8>> {
    if psot_spec(t) > u32::MAX {
        None
    } else {
        Some(sot_spec(t, psot_spec(t) as u32) + concat(views(t.header_segments@)) + u16_be(MARKER_SOD)
            + t.payload.bytes())
    }
}

/// What a main-header segment is written as: SIZ, COD and (for reversible coding) QCD are
/// re-derived from the plan when the result keeps the segment's length; anything else, and
/// any segment too short to carry a marker, is copied. `None` when SIZ cannot be derived.
pub open spec fn rewrite_spec(seg: Seq<u8>, plan: EncodingPlan) -> Option<Seq<u8>> {
    if seg.len() < 2 {
        Some(seg)
    } else if be16(seg, 0) == MARKER_SIZ {
        match siz_spec(plan) {
            None => None,
            Some(l) => Some(if l.len() == seg.len() { l } else { seg }),
        }
    } else if be16(seg, 0) == MARKER_COD {
        let l = cod_spec(plan);
        Some(if l.len() == seg.len() { l } else { seg })
    } else if be16(seg, 0) == MARKER_QCD {
        match qcd_spec(plan) {
            Some(l) => Some(if plan.quantization_style == QuantizationStyle::NoQuantization && l.len() == seg.len() { l } else { seg }),
            None => Some(seg),
        }
    } else {
        Some(seg)
    }
}

/// The main-header segments as written, one after the other.
pub open spec fn main_spec(segs: Seq<Seq<u8>>, plan: EncodingPlan) -> Option<Seq<u8>>
    decreases segs.len(),
{
    if segs.len() == 0 {
        Some(Seq::empty())
    } else {
        match main_spec(segs.drop_last(), plan) {
            None => None,
            Some(prefix) => match rewrite_spec(segs.last(), plan) {
                None => None,
                Some(s) => Some(prefix + s),
            },
        }
    }
}

/// The tile-parts as written, one after the other.
pub open spec fn tiles_spec(tps: Seq<TilePart>) -> Option<Seq<u8>>
    decreases tps.len(),
{
    if tps.len() == 0 {
        Some(Seq::empty())
    } else {
        match tiles_spec(tps.drop_last()) {
            None => None,
            Some(prefix) => match tile_part_spec(tps.last()) {
                None => None,
                Some(s) => Some(prefix + s),
            },
        }
    }
}

/// The codestream that the parts make with `plan`, or `None` where writing fails.
pub open spec fn parts_spec(p: CodestreamParts, plan: EncodingPlan) -> Option<Seq<u8>> {
    if plan.component_count == 0 {
        None
    } else {
        match main_spec(views(p.main_header_segments@), plan) {
            None => None,
            Some(m) => match tiles_spec(p.tile_parts@) {
                None => None,
                Some(t) => Some(u16_be(MARKER_SOC) + m + t + u16_be(MARKER_EOC)),
            },
        }
    }
}

/// Writes a main-header segment, re-deriving SIZ, COD and reversible QCD from the plan.
fn rewrite_main_header_segment(segment: &Vec<u8>, plan: &EncodingPlan) -> (r: Result<Vec<u8>>)
    ensures
        r is Ok <==> rewrite_spec(segment@, *plan) is Some,
        r matches Ok(v) ==> v@ == rewrite_spec(segment@, *plan).unwrap(),
        r matches Err(e) ==> e is EncodeFailed,
{
    if segment.len() < 2 {
        return Ok(copy_bytes(segment));
    }
    let marker = segment[0] as u16 * 256 + segment[1] as u16;
    if marker == MARKER_SIZ {
        let local = encode_siz(plan)?;
        if local.len() == segment.len() { Ok(local) } else { Ok(copy_bytes(segment)) }
    } else if marker == MARKER_COD {
        let local = encode_cod(plan);
        if local.len() == segment.len() { Ok(local) } else { Ok(copy_bytes(segment)) }
    } else if marker == MARKER_QCD {
        match encode_qcd(plan) {
            Ok(local) => {
                if plan.quantization_style == QuantizationStyle::NoQuantization && local.len() == segment.len() {
                    Ok(local)
                } else {
                    Ok(copy_bytes(segment))
                }
            },
            Err(_) => Ok(copy_bytes(segment)),
        }
    } else {
        Ok(copy_bytes(segment))
    }
}

/// A copy of the bytes.
fn copy_bytes(v: &Vec<u8>) -> (r: Vec<u8>)
    ensures
        r@ == v@,
{
    let mut out: Vec<u8> = Vec::new();
    push_all(&mut out, v.as_slice());
    out
}

/// The total length of the segments, or `None` when it exceeds `usize`.
fn segments_len(segs: &Vec<Vec<u8>>) -> (n: Option<usize>)
    ensures
        n is Some <==> concat(views(segs@)).len() <= usize::MAX,
        n matches Some(k) ==> k == concat(views(segs@)).len(),
{
    let ghost sv = views(segs@);
    let mut total: usize = 0;
    let mut i: usize = 0;
    while i < segs.len()
        invariant
            sv == views(segs@),
            sv.len() == segs@.len(),
            i <= sv.len(),
            total == concat(sv.subrange(0, i as int)).len(),
        decreases sv.len() - i,
    {
        proof { lemma_concat_prefix(sv, i as int); lemma_concat_len_mono(sv, i as int + 1); }
        let l = segs[i].len();
        if total > usize::MAX - l {
            return None;
        }
        total = total + l;
        i = i + 1;
    }
    assert(sv.subrange(0, sv.len() as int) =~= sv);
    Some(total)
}

/// Writes the SOT segment of a tile-part.
pub fn encode_sot_segment(tile_part: &TilePart) -> (r: Result<Vec<u8>>)
    ensures
        r is Ok <==> psot_spec(*tile_part) <= u32::MAX,
        r matches Ok(v) ==> v@ == sot_spec(*tile_part, psot_spec(*tile_part) as u32),
        r matches Err(e) ==> e is EncodeFailed,
{
    let headers = match segments_len(&tile_part.header_segments) {
        Some(n) => n,
        None => { return Err(encode_failed("tile-part length overflow")); },
    };
    let payload = match tile_part.payload.byte_len() {
        Some(n) => n,
        None => { return Err(encode_failed("tile-part length overflow")); },
    };
    if headers > 0xffff_ffff || payload > 0xffff_ffff - headers || 14 > 0xffff_ffff - headers - payload {
        return Err(encode_failed("tile-part length exceeds Psot range"));
    }
    let psot = (12 + headers + 2 + payload) as u32;
    let mut out: Vec<u8> = Vec::new();
    push_u16(&mut out, MARKER_SOT);
    push_u16(&mut out, 10);
    push_u16(&mut out, tile_part.header.tile_index);
    push_u32(&mut out, psot);
    out.push(tile_part.header.part_index);
    out.push(tile_part.header.total_parts);
    assert(out@ =~= sot_spec(*tile_part, psot));
    Ok(out)
}

impl CodestreamParts {
    /// Writes the codestream: SOC, the main-header segments (SIZ, COD and reversible QCD
    /// re-derived from the plan), each tile-part with its SOT, header segments, SOD and payload,
    /// and EOC.
    pub fn encode(&self, plan: &EncodingPlan) -> (r: Result<Vec<u8>>)
        ensures
            r is Ok <==> parts_spec(*self, *plan) is Some,
            r matches Ok(v) ==> v@ == parts_spec(*self, *plan).unwrap(),
            r matches Err(e) ==> e is EncodeFailed,
    {
        if plan.component_count == 0 {
            return Err(encode_failed("cannot emit codestream with zero components"));
        }
        let mut out: Vec<u8> = Vec::new();
        push_u16(&mut out, MARKER_SOC);
        let ghost segs = views(self.main_header_segments@);
        let mut i: usize = 0;
        while i < self.main_header_segments.len()
            invariant
                segs == views(self.main_header_segments@),
                segs.len() == self.main_header_segments@.len(),
                i <= segs.len(),
                main_spec(segs.subrange(0, i as int), *plan) is Some,
                out@ == u16_be(MARKER_SOC) + main_spec(segs.subrange(0, i as int), *plan).unwrap(),
            decreases segs.len() - i,
        {
            assert(segs.subrange(0, i + 1).drop_last() =~= segs.subrange(0, i as int));
            assert(segs.subrange(0, i + 1).last() == segs[i as int]);
            let seg = match rewrite_main_header_segment(&self.main_header_segments[i], plan) {
                Ok(s) => s,
                Err(e) => {
                    proof { lemma_main_none_extends(segs, *plan, i as int + 1); }
                    return Err(e);
                },
            };
            push_all(&mut out, seg.as_slice());
            assert(out@ =~= u16_be(MARKER_SOC) + main_spec(segs.subrange(0, i + 1), *plan).unwrap());
            i = i + 1;
        }
        assert(segs.subrange(0, segs.len() as int) =~= segs);
        let ghost main = main_spec(segs, *plan).unwrap();
        let ghost tps = self.tile_parts@;
        let mut t: usize = 0;
        while t < self.tile_parts.len()
            invariant
                tps == self.tile_parts@,
                t <= tps.len(),
                main_spec(segs, *plan) == Some(main),
                segs == views(self.main_header_segments@),
                tiles_spec(tps.subrange(0, t as int)) is Some,
                out@ == u16_be(MARKER_SOC) + main + tiles_spec(tps.subrange(0, t as int)).unwrap(),
            decreases tps.len() - t,
        {
            let tp = &self.tile_parts[t];
            assert(tps.subrange(0, t + 1).drop_last() =~= tps.subrange(0, t as int));
            assert(tps.subrange(0, t + 1).last() == tps[t as int]);
            let sot = match encode_sot_segment(tp) {
                Ok(s) => s,
                Err(e) => {
                    proof { lemma_tiles_none_extends(tps, t as int + 1); }
                    return Err(e);
                },
            };
            let ghost before = out@;
            push_all(&mut out, sot.as_slice());
            let ghost hv = views(tp.header_segments@);
            let mut h: usize = 0;
            while h < tp.header_segments.len()
                invariant
                    hv == views(tp.header_segments@),
                    hv.len() == tp.header_segments@.len(),
                    h <= hv.len(),
                    out@ == before + sot@ + concat(hv.subrange(0, h as int)),
                decreases hv.len() - h,
            {
                proof { lemma_concat_prefix(hv, h as int); }
                push_all(&mut out, tp.header_segments[h].as_slice());
                assert(out@ =~= before + sot@ + concat(hv.subrange(0, h + 1)));
                h = h + 1;
            }
            assert(hv.subrange(0, hv.len() as int) =~= hv);
            push_u16(&mut out, MARKER_SOD);
            tp.payload.write_to(&mut out);
            assert(out@ =~= u16_be(MARKER_SOC) + main + tiles_spec(tps.subrange(0, t + 1)).unwrap());
            t = t + 1;
        }
        assert(tps.subrange(0, tps.len() as int) =~= tps);
        push_u16(&mut out, MARKER_EOC);
        Ok(out)
    }
}

proof fn lemma_main_none_extends(segs: Seq<Seq<u8>>, plan: EncodingPlan, k: int)
    requires
        0 <= k <= segs.len(),
        main_spec(segs.subrange(0, k), plan) is None,
    ensures
        main_spec(segs, plan) is None,
    decreases segs.len() - k,
{
    if k < segs.len() {
        assert(segs.subrange(0, k + 1).drop_last() =~= segs.subrange(0, k));
        lemma_main_none_extends(segs, plan, k + 1);
    } else {
        assert(segs.subrange(0, k) =~= segs);
    }
}

proof fn lemma_tiles_none_extends(tps: Seq<TilePart>, k: int)
    requires
        0 <= k <= tps.len(),
        tiles_spec(tps.subrange(0, k)) is None,
    ensures
        tiles_spec(tps) is None,
    decreases tps.len() - k,
{
    if k < tps.len() {
        assert(tps.subrange(0, k + 1).drop_last() =~= tps.subrange(0, k));
        lemma_tiles_none_extends(tps, k + 1);
    } else {
        assert(tps.subrange(0, k) =~= tps);
    }
}

/// `p` holds the pieces that `s` places in `b`, copied out.
pub open spec fn parts_match(p: CodestreamParts, b: Seq<u8>, s: CodestreamSpec) -> bool {
    &&& views(p.main_header_segments@) == range_bytes(b, s.main)
    &&& p.tile_parts@.len() == s.tiles.len()
    &&& forall|i: int| 0 <= i < s.tiles.len() ==> {
        let t = #[trigger] p.tile_parts@[i];
        &&& t.header == s.tiles[i].header
        &&& views(t.header_segments@) == range_bytes(b, s.tiles[i].segments)
        &&& t.payload.packet_views() == seq![b.subrange(s.tiles[i].payload.0 as int, s.tiles[i].payload.1 as int)]
    }
}

/// Copies borrowed segments into owned ones.
fn copy_segments(segs: &Vec<&[u8]>) -> (r: Vec<Vec<u8>>)
    ensures
        views(r@) == Seq::new(segs@.len(), |i: int| segs@[i]@),
{
    let mut out: Vec<Vec<u8>> = Vec::new();
    let mut i: usize = 0;
    while i < segs.len()
        invariant
            i <= segs@.len(),
            views(out@) == Seq::new(i as nat, |j: int| segs@[j]@),
        decreases segs@.len() - i,
    {
        let mut v: Vec<u8> = Vec::new();
        push_all(&mut v, segs[i]);
        let ghost before = out@;
        out.push(v);
        proof { lemma_views_push(before, v); }
        assert(views(out@) =~= Seq::new((i + 1) as nat, |j: int| segs@[j]@));
        i = i + 1;
    }
    out
}

impl CodestreamParts {
    /// Takes a codestream apart into its main-header segments and tile-parts, each copied out
    /// with its marker; a tile-part's payload becomes one opaque packet.
    pub fn parse_single_tile(bytes: &[u8]) -> (r: Result<CodestreamParts>)
        ensures
            r is Ok <==> codestream_spec(bytes@) is Some,
            r matches Ok(p) ==> parts_match(p, bytes@, codestream_spec(bytes@).unwrap()),
            r matches Err(e) ==> e is EncodeFailed,
    {
        let view = match parse_codestream_view(bytes) {
            Ok(v) => v,
            Err(_) => { return Err(encode_failed("codestream does not frame as SOC, header segments, tile-parts and EOC")); },
        };
        let ghost spec = codestream_spec(bytes@).unwrap();
        let main = copy_segments(&view.main_header_segments);
        proof {
            assert(views(main@) =~= range_bytes(bytes@, spec.main));
        }
        let mut tile_parts: Vec<TilePart> = Vec::new();
        let n = view.tile_parts.len();
        let mut i: usize = 0;
        while i < n
            invariant
                n == view.tile_parts@.len(),
                n == spec.tiles.len(),
                spec == codestream_spec(bytes@).unwrap(),
                forall|k: int| 0 <= k < n ==> #[trigger] tile_part_matches(view.tile_parts@[k], bytes@, spec.tiles[k]),
                i <= n,
                tile_parts@.len() == i,
                forall|k: int| 0 <= k < i ==> {
                    let t = #[trigger] tile_parts@[k];
                    &&& t.header == spec.tiles[k].header
                    &&& views(t.header_segments@) == range_bytes(bytes@, spec.tiles[k].segments)
                    &&& t.payload.packet_views() == seq![bytes@.subrange(spec.tiles[k].payload.0 as int, spec.tiles[k].payload.1 as int)]
                },
            decreases n - i,
        {
            let tv = &view.tile_parts[i];
            assert(tile_part_matches(view.tile_parts@[i as int], bytes@, spec.tiles[i as int]));
            let header_segments = copy_segments(&tv.header_segments);
            proof {
                assert(views(header_segments@) =~= range_bytes(bytes@, spec.tiles[i as int].segments));
            }
            let mut payload: Vec<u8> = Vec::new();
            push_all(&mut payload, tv.payload);
            tile_parts.push(TilePart {
                header: tv.header,
                header_segments,
                payload: TilePartPayload::from_raw_bytes(payload),
            });
            i = i + 1;
        }
        Ok(CodestreamParts { main_header_segments: main, tile_parts })
    }
}

/// The big-endian `u16` at `off` of `b` is the one that `piece`, found there, starts with.
proof fn lemma_be16_at(b: Seq<u8>, off: int, piece: Seq<u8>, k: int)
    requires
        0 <= off,
        0 <= k,
        k + 2 <= piece.len(),
        off + piece.len() <= b.len(),
        b.subrange(off, off + piece.len()) == piece,
    ensures
        be16(b, off + k) == be16(piece, k),
{
    assert(b[off + k] == b.subrange(off, off + piece.len())[k]);
    assert(b[off + k + 1] == b.subrange(off, off + piece.len())[k + 1]);
}

/// A framed marker segment other than SOT, found at `pos`, is one main-header segment of the walk.
proof fn lemma_main_walk_step(b: Seq<u8>, pos: nat, seg: Seq<u8>, acc: Seq<(nat, nat)>)
    requires
        pos + seg.len() <= b.len(),
        b.subrange(pos as int, (pos + seg.len()) as int) == seg,
        crate::decode_markers::seg_framed(seg),
        be16(seg, 0) != MARKER_SOT,
    ensures
        crate::codestream::main_walk(b, pos, acc) == crate::codestream::main_walk(b, pos + seg.len(), acc.push((pos, pos + seg.len()))),
{
    lemma_be16_at(b, pos as int, seg, 0);
    lemma_be16_at(b, pos as int, seg, 2);
}

/// The bytes SOC, three framed segments (none of them SOT), an SOT segment of length `psot`, SOD,
/// a payload and EOC frame as a codestream.
#[verifier::rlimit(50)]
proof fn lemma_frame_bytes(s1: Seq<u8>, s2: Seq<u8>, s3: Seq<u8>, sot: Seq<u8>, payload: Seq<u8>, psot: u32)
    requires
        crate::decode_markers::seg_framed(s1) && be16(s1, 0) != MARKER_SOT,
        crate::decode_markers::seg_framed(s2) && be16(s2, 0) != MARKER_SOT,
        crate::decode_markers::seg_framed(s3) && be16(s3, 0) != MARKER_SOT,
        sot.len() == 12,
        sot.subrange(0, 2) == u16_be(MARKER_SOT),
        sot.subrange(2, 4) == u16_be(10),
        sot.subrange(6, 10) == u32_be(psot),
        psot == 14 + payload.len(),
    ensures
        codestream_spec(u16_be(MARKER_SOC) + (s1 + s2 + s3) + (sot + u16_be(MARKER_SOD) + payload) + u16_be(MARKER_EOC)) is Some,
{
    let b = u16_be(MARKER_SOC) + (s1 + s2 + s3) + (sot + u16_be(MARKER_SOD) + payload) + u16_be(MARKER_EOC);
    let p1: int = 2 + s1.len() as int;
    let p2: int = p1 + s2.len();
    let s0: int = p2 + s3.len();
    let q: int = s0 + 12;
    let end: int = q + 2 + payload.len();
    assert(b.len() == end + 2);
    crate::bytes::lemma_u16_be_roundtrip(MARKER_SOC);
    crate::bytes::lemma_u16_be_roundtrip(MARKER_SOT);
    crate::bytes::lemma_u16_be_roundtrip(MARKER_SOD);
    crate::bytes::lemma_u16_be_roundtrip(MARKER_EOC);
    crate::bytes::lemma_u16_be_roundtrip(10);
    crate::bytes::lemma_u32_be_roundtrip(psot);
    assert(b.subrange(0, 2) =~= u16_be(MARKER_SOC));
    lemma_be16_at(b, 0, u16_be(MARKER_SOC), 0);
    assert(b.subrange(2, p1) =~= s1);
    assert(b.subrange(p1, p2) =~= s2);
    assert(b.subrange(p2, s0) =~= s3);
    lemma_main_walk_step(b, 2, s1, Seq::empty());
    lemma_main_walk_step(b, p1 as nat, s2, seq![(2nat, p1 as nat)]);
    lemma_main_walk_step(b, p2 as nat, s3, seq![(2nat, p1 as nat)].push((p1 as nat, p2 as nat)));
    assert(b.subrange(s0, q) =~= sot);
    lemma_be16_at(b, s0, sot, 0);
    lemma_be16_at(b, s0, sot, 2);
    lemma_be16_at(sot, 0, u16_be(MARKER_SOT), 0);
    lemma_be16_at(sot, 2, u16_be(10), 0);
    assert(crate::bytes::be32(b, s0 + 6) == psot) by {
        assert(b[s0 + 6] == sot[6] && sot[6] == u32_be(psot)[0]);
        assert(b[s0 + 7] == sot[7] && sot[7] == u32_be(psot)[1]);
        assert(b[s0 + 8] == sot[8] && sot[8] == u32_be(psot)[2]);
        assert(b[s0 + 9] == sot[9] && sot[9] == u32_be(psot)[3]);
    }
    assert(b.subrange(q, q + 2) =~= u16_be(MARKER_SOD));
    lemma_be16_at(b, q, u16_be(MARKER_SOD), 0);
    assert(b.subrange(end, end + 2) =~= u16_be(MARKER_EOC));
    lemma_be16_at(b, end, u16_be(MARKER_EOC), 0);
    assert(crate::codestream::tile_walk(b, q as nat, end as nat, Seq::empty()) == Some((Seq::<(nat, nat)>::empty(), (q + 2) as nat)));
    assert(crate::codestream::tile_part_at(b, s0 as nat) is Some);
    assert(crate::codestream::tile_part_at(b, s0 as nat).unwrap().1 == end);
    assert(crate::codestream::tiles_walk(b, end as nat, seq![(2nat, p1 as nat)].push((p1 as nat, p2 as nat)).push((p2 as nat, s0 as nat)),
        seq![crate::codestream::tile_part_at(b, s0 as nat).unwrap().0]) is Some);
}

/// Three segments that writing keeps as they are are written one after the other.
proof fn lemma_main_three(segs: Seq<Seq<u8>>, plan: EncodingPlan)
    requires
        segs.len() == 3,
        rewrite_spec(segs[0], plan) == Some(segs[0]),
        rewrite_spec(segs[1], plan) == Some(segs[1]),
        rewrite_spec(segs[2], plan) == Some(segs[2]),
    ensures
        main_spec(segs, plan) == Some(segs[0] + segs[1] + segs[2]),
{
    let s2 = segs.drop_last();
    let s1 = s2.drop_last();
    let s0 = s1.drop_last();
    assert(s0 =~= Seq::<Seq<u8>>::empty());
    assert(s1.last() == segs[0]);
    assert(s2.last() == segs[1]);
    assert(main_spec(s0, plan) == Some(Seq::<u8>::empty()));
    assert(main_spec(s1, plan) == Some(Seq::<u8>::empty() + segs[0]));
    assert(Seq::<u8>::empty() + segs[0] =~= segs[0]);
    assert(main_spec(s2, plan) == Some(segs[0] + segs[1]));
}

/// The plan's own SIZ, COD and QCD segments are written as they are.
proof fn lemma_rewrite_keeps(plan: EncodingPlan)
    requires
        siz_spec(plan) is Some,
        qcd_spec(plan) is Some,
        be16(siz_spec(plan).unwrap(), 0) == MARKER_SIZ,
        be16(cod_spec(plan), 0) == MARKER_COD,
        be16(qcd_spec(plan).unwrap(), 0) == MARKER_QCD,
        siz_spec(plan).unwrap().len() >= 2,
        cod_spec(plan).len() >= 2,
        qcd_spec(plan).unwrap().len() >= 2,
    ensures
        rewrite_spec(siz_spec(plan).unwrap(), plan) == siz_spec(plan),
        rewrite_spec(cod_spec(plan), plan) == Some(cod_spec(plan)),
        rewrite_spec(qcd_spec(plan).unwrap(), plan) == qcd_spec(plan),
{
}

/// A codestream written from a SIZ, a COD and a QCD segment, each framed, and one tile-part with
/// no header segments frames: SOC, the three segments, the tile-part (SOT, SOD, payload), EOC.
#[verifier::rlimit(60)]
pub proof fn lemma_written_codestream_frames(p: CodestreamParts, plan: EncodingPlan)
    requires
        parts_spec(p, plan) is Some,
        p.main_header_segments@.len() == 3,
        p.tile_parts@.len() == 1,
        p.tile_parts@[0].header_segments@.len() == 0,
        views(p.main_header_segments@) == seq![siz_spec(plan).unwrap(), cod_spec(plan), qcd_spec(plan).unwrap()],
        siz_spec(plan) is Some,
        qcd_spec(plan) is Some,
        crate::decode_markers::seg_framed(siz_spec(plan).unwrap()) && be16(siz_spec(plan).unwrap(), 0) == MARKER_SIZ,
        crate::decode_markers::seg_framed(cod_spec(plan)) && be16(cod_spec(plan), 0) == MARKER_COD,
        crate::decode_markers::seg_framed(qcd_spec(plan).unwrap()) && be16(qcd_spec(plan).unwrap(), 0) == MARKER_QCD,
    ensures
        codestream_spec(parts_spec(p, plan).unwrap()) is Some,
{
    let segs = views(p.main_header_segments@);
    lemma_rewrite_keeps(plan);
    lemma_main_three(segs, plan);
    assert(main_spec(segs, plan) == Some(segs[0] + segs[1] + segs[2]));
    let t = p.tile_parts@[0];
    assert(tiles_spec(p.tile_parts@) is Some);
    assert(psot_spec(t) <= u32::MAX) by {
        assert(p.tile_parts@.drop_last() =~= Seq::<TilePart>::empty());
    }
    lemma_one_tile_part(p.tile_parts@);
    let psot = psot_spec(t) as u32;
    let sot = sot_spec(t, psot);
    let payload = t.payload.bytes();
    lemma_parts_spec_joins(p, plan, segs[0] + segs[1] + segs[2], sot + u16_be(MARKER_SOD) + payload);
    lemma_sot_fields(t, psot);
    assert(segs[0] == siz_spec(plan).unwrap());
    assert(segs[1] == cod_spec(plan));
    assert(segs[2] == qcd_spec(plan).unwrap());
    lemma_frame_bytes(segs[0], segs[1], segs[2], sot, payload, psot);
}

/// Where the marker, the length and Psot lie in an SOT segment.
proof fn lemma_sot_fields(t: TilePart, psot: u32)
    ensures
        sot_spec(t, psot).len() == 12,
        sot_spec(t, psot).subrange(0, 2) == u16_be(MARKER_SOT),
        sot_spec(t, psot).subrange(2, 4) == u16_be(10),
        sot_spec(t, psot).subrange(6, 10) == u32_be(psot),
{
    let sot = sot_spec(t, psot);
    assert(sot.subrange(0, 2) =~= u16_be(MARKER_SOT));
    assert(sot.subrange(2, 4) =~= u16_be(10));
    assert(sot.subrange(6, 10) =~= u32_be(psot));
}

/// The written codestream is SOC, the main header, the tile-parts and EOC.
proof fn lemma_parts_spec_joins(p: CodestreamParts, plan: EncodingPlan, m: Seq<u8>, t: Seq<u8>)
    requires
        parts_spec(p, plan) is Some,
        main_spec(views(p.main_header_segments@), plan) == Some(m),
        tiles_spec(p.tile_parts@) == Some(t),
    ensures
        parts_spec(p, plan) == Some(u16_be(MARKER_SOC) + m + t + u16_be(MARKER_EOC)),
{
}

/// One tile-part with no header segments is written as SOT, SOD and its payload.
proof fn lemma_one_tile_part(tps: Seq<TilePart>)
    requires
        tps.len() == 1,
        tps[0].header_segments@.len() == 0,
        psot_spec(tps[0]) <= u32::MAX,
    ensures
        psot_spec(tps[0]) == 14 + tps[0].payload.bytes().len(),
        tiles_spec(tps) == Some(sot_spec(tps[0], psot_spec(tps[0]) as u32) + u16_be(MARKER_SOD) + tps[0].payload.bytes()),
{
    let t = tps[0];
    assert(tps.drop_last() =~= Seq::<TilePart>::empty());
    assert(views(t.header_segments@) =~= Seq::<Seq<u8>>::empty());
    assert(concat(views(t.header_segments@)) =~= Seq::<u8>::empty());
    let tp = sot_spec(t, psot_spec(t) as u32) + concat(views(t.header_segments@)) + u16_be(MARKER_SOD) + t.payload.bytes();
    assert(tile_part_spec(t) == Some(tp));
    assert(tiles_spec(tps.drop_last()) == Some(Seq::<u8>::empty()));
    assert(Seq::<u8>::empty() + tp =~= sot_spec(t, psot_spec(t) as u32) + u16_be(MARKER_SOD) + t.payload.bytes());
}

} // verus!

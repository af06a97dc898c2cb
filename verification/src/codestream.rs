//! Framing of a codestream held in memory: the main-header marker segments and the tile-parts,
//! each borrowed from the input.
use vstd::prelude::*;
use crate::bytes::{be16, be32, read_u16_at, read_u32_at};
use crate::decode_markers::{MARKER_EOC, MARKER_SOC, MARKER_SOD, MARKER_SOT};
use crate::error::{Jp2LamError, Result, decode_failed};
use crate::plan_types::TilePartHeader;

verus! {

/// Where a tile-part's pieces lie in the codestream.
pub struct TilePartSpec {
    pub header: TilePartHeader,
    /// The marker segments between SOT and SOD.
    pub segments: Seq<(nat, nat)>,
    /// The bytes between SOD and the end that Psot gives.
    pub payload: (nat, nat),
}

/// Where the pieces of a codestream lie.
pub struct CodestreamSpec {
    pub main: Seq<(nat, nat)>,
    pub tiles: Seq<TilePartSpec>,
}

/// The end of the marker segment whose length field is at `pos`.
pub open spec fn seg_end(b: Seq<u8>, pos: nat) -> Option<nat> {
    if pos + 2 > b.len() {
        None
    } else {
        let l = be16(b, pos as int);
        if l < 2 || pos + l > b.len() { None } else { Some((pos + l) as nat) }
    }
}

/// The marker segments of a tile-part header from `pos` up to SOD, then the payload start.
pub open spec fn tile_walk(b: Seq<u8>, pos: nat, tile_end: nat, segs: Seq<(nat, nat)>) -> Option<(Seq<(nat, nat)>, nat)>
    decreases b.len() - pos,
{
    if pos + 2 > b.len() {
        None
    } else if be16(b, pos as int) == MARKER_SOD {
        if pos + 2 > tile_end { None } else { Some((segs, (pos + 2) as nat)) }
    } else {
        match seg_end(b, pos + 2) {
            None => None,
            Some(e) => tile_walk(b, e, tile_end, segs.push((pos, e))),
        }
    }
}

/// The tile-part with this header and end, once its header segments have been walked.
pub open spec fn finish_tile_part(walk: Option<(Seq<(nat, nat)>, nat)>, header: TilePartHeader, tile_end: nat) -> Option<(TilePartSpec, nat)> {
    match walk {
        None => None,
        Some((segs, ps)) => Some((TilePartSpec { header, segments: segs, payload: (ps, tile_end) }, tile_end)),
    }
}

/// The tile-part whose SOT marker is at `start`, and where the next piece starts.
pub open spec fn tile_part_at(b: Seq<u8>, start: nat) -> Option<(TilePartSpec, nat)> {
    match seg_end(b, start + 2) {
        None => None,
        Some(se) => {
            if se - start < 12 {
                None
            } else {
                let psot = be32(b, start + 6int);
                let tile_end = (start + psot) as nat;
                if psot == 0 || start + psot > b.len() {
                    None
                } else {
                    match tile_walk(b, se, tile_end, Seq::empty()) {
                        None => None,
                        Some((segs, ps)) => Some((
                            TilePartSpec {
                                header: TilePartHeader {
                                    tile_index: be16(b, start + 4int) as u16,
                                    part_index: b[start + 10int],
                                    total_parts: b[start + 11int],
                                },
                                segments: segs,
                                payload: (ps, tile_end),
                            },
                            tile_end,
                        )),
                    }
                }
            }
        },
    }
}

/// The tile-parts from `pos` on, up to the final EOC.
pub open spec fn tiles_walk(b: Seq<u8>, pos: nat, main: Seq<(nat, nat)>, tiles: Seq<TilePartSpec>) -> Option<CodestreamSpec>
    decreases b.len() - pos,
{
    let lim: int = if b.len() >= 2 { b.len() - 2 } else { 0 };
    if pos < lim {
        let m = be16(b, pos as int);
        if m != MARKER_SOT {
            None
        } else {
            match tile_part_at(b, pos) {
                None => None,
                Some((t, next)) => if next <= pos || next > b.len() { None } else { tiles_walk(b, next, main, tiles.push(t)) },
            }
        }
    } else if pos == lim && b.len() >= 2 {
        if be16(b, pos as int) == MARKER_EOC { Some(CodestreamSpec { main, tiles }) } else { None }
    } else {
        None
    }
}

/// The main-header segments from `pos` on, up to the first SOT.
pub open spec fn main_walk(b: Seq<u8>, pos: nat, main: Seq<(nat, nat)>) -> Option<CodestreamSpec>
    decreases b.len() - pos,
{
    if pos + 2 > b.len() {
        None
    } else if be16(b, pos as int) == MARKER_SOT {
        match tile_part_at(b, pos) {
            None => None,
            Some((t, next)) => if next <= pos || next > b.len() { None } else { tiles_walk(b, next, main, seq![t]) },
        }
    } else {
        match seg_end(b, pos + 2) {
            None => None,
            Some(e) => main_walk(b, e, main.push((pos, e))),
        }
    }
}

/// The framing of codestream `b`: SOC, main-header segments, one or more tile-parts, EOC at the end.
pub open spec fn codestream_spec(b: Seq<u8>) -> Option<CodestreamSpec> {
    if b.len() < 2 || be16(b, 0) != MARKER_SOC { None } else { main_walk(b, 2, Seq::empty()) }
}

/// A codestream whose marker segments and payloads are borrowed from the input.
pub struct CodestreamView<'a> {
    pub main_header_segments: Vec<&'a [u8]>,
    pub tile_parts: Vec<TilePartView<'a>>,
}

/// A tile-part whose marker segments and payload are borrowed from the input.
pub struct TilePartView<'a> {
    pub header: TilePartHeader,
    pub header_segments: Vec<&'a [u8]>,
    pub payload: &'a [u8],
}

/// Each slice is the range of `b` that `ranges` gives.
pub open spec fn slices_at(v: Seq<&[u8]>, b: Seq<u8>, ranges: Seq<(nat, nat)>) -> bool {
    &&& v.len() == ranges.len()
    &&& forall|i: int| 0 <= i < v.len() ==> #[trigger] v[i]@ == b.subrange(ranges[i].0 as int, ranges[i].1 as int)
}

/// `t` holds the pieces that `s` places in `b`.
pub open spec fn tile_part_matches(t: TilePartView, b: Seq<u8>, s: TilePartSpec) -> bool {
    &&& t.header == s.header
    &&& slices_at(t.header_segments@, b, s.segments)
    &&& t.payload@ == b.subrange(s.payload.0 as int, s.payload.1 as int)
}

/// `v` holds the pieces that `s` places in `b`.
pub open spec fn view_matches(v: CodestreamView, b: Seq<u8>, s: CodestreamSpec) -> bool {
    &&& slices_at(v.main_header_segments@, b, s.main)
    &&& v.tile_parts@.len() == s.tiles.len()
    &&& forall|i: int| 0 <= i < s.tiles.len() ==> #[trigger] tile_part_matches(v.tile_parts@[i], b, s.tiles[i])
}

proof fn lemma_tile_walk_advances(b: Seq<u8>, pos: nat, tile_end: nat, segs: Seq<(nat, nat)>)
    ensures
        tile_walk(b, pos, tile_end, segs) matches Some((s, ps)) ==> pos + 2 <= ps <= tile_end,
    decreases b.len() - pos,
{
    if pos + 2 <= b.len() && be16(b, pos as int) != MARKER_SOD {
        if let Some(e) = seg_end(b, pos + 2) {
            lemma_tile_walk_advances(b, e, tile_end, segs.push((pos, e)));
        }
    }
}

proof fn lemma_tile_part_advances(b: Seq<u8>, start: nat)
    ensures
        tile_part_at(b, start) matches Some((t, next)) ==> start < t.payload.0 <= t.payload.1 == next <= b.len(),
{
    if let Some(se) = seg_end(b, start + 2) {
        let psot = be32(b, start + 6int);
        lemma_tile_walk_advances(b, se, (start + psot) as nat, Seq::empty());
    }
}

struct Cursor<'a> {
    bytes: &'a [u8],
    pos: usize,
}

impl<'a> Cursor<'a> {
    fn new(bytes: &'a [u8]) -> (c: Self)
        ensures
            c.bytes@ == bytes@,
            c.pos == 0,
    {
        Cursor { bytes, pos: 0 }
    }

    fn position(&self) -> (p: usize)
        ensures
            p == self.pos,
    {
        self.pos
    }

    fn read_u16(&mut self) -> (r: Result<u16>)
        ensures
            final(self).bytes@ == old(self).bytes@,
            r is Ok <==> old(self).pos + 2 <= old(self).bytes@.len(),
            r matches Ok(v) ==> v == be16(old(self).bytes@, old(self).pos as int) && final(self).pos == old(self).pos + 2,
            r matches Err(e) ==> e is DecodeFailed,
    {
        let n = self.bytes.len();
        match read_u16_at(self.bytes, self.pos) {
            Some(v) => {
                self.pos = self.pos + 2;
                Ok(v)
            },
            None => Err(decode_failed("unexpected end of codestream")),
        }
    }

    /// Reads the marker segment whose marker is at `marker_start` and whose length field is next.
    fn read_segment(&mut self, marker_start: usize) -> (r: Result<&'a [u8]>)
        requires
            marker_start + 2 == old(self).pos,
        ensures
            final(self).bytes@ == old(self).bytes@,
            r is Ok <==> seg_end(old(self).bytes@, old(self).pos as nat) is Some,
            r matches Ok(s) ==> final(self).pos == seg_end(old(self).bytes@, old(self).pos as nat).unwrap()
                && s@ == old(self).bytes@.subrange(marker_start as int, final(self).pos as int),
            r matches Err(e) ==> e is DecodeFailed,
    {
        let length = self.read_u16()? as usize;
        if length < 2 {
            return Err(decode_failed("invalid marker length"));
        }
        let remaining = self.bytes.len() - self.pos;
        if length - 2 > remaining {
            return Err(decode_failed("marker extended past end of codestream"));
        }
        let end = self.pos + (length - 2);
        self.pos = end;
        Ok(vstd::slice::slice_subrange(self.bytes, marker_start, end))
    }

    /// Reads the tile-part whose SOT marker is at `sot_start` and has just been read.
    fn read_tile_part(&mut self, sot_start: usize) -> (r: Result<TilePartView<'a>>)
        requires
            sot_start + 2 == old(self).pos,
        ensures
            final(self).bytes@ == old(self).bytes@,
            r is Ok <==> tile_part_at(old(self).bytes@, sot_start as nat) is Some,
            r matches Ok(t) ==> tile_part_matches(t, old(self).bytes@, tile_part_at(old(self).bytes@, sot_start as nat).unwrap().0)
                && final(self).pos == tile_part_at(old(self).bytes@, sot_start as nat).unwrap().1,
            r matches Err(e) ==> e is DecodeFailed,
    {
        let ghost b = self.bytes@;
        let sot_segment = self.read_segment(sot_start)?;
        if sot_segment.len() < 12 {
            return Err(decode_failed("missing Psot in SOT segment"));
        }
        let psot = read_u32_at(sot_segment, 6).unwrap();
        assert(be32(sot_segment@, 6) == be32(b, sot_start + 6));
        if psot == 0 {
            return Err(decode_failed("Psot=0 tile-parts are unsupported"));
        }
        if psot as u64 > (self.bytes.len() - sot_start) as u64 {
            return Err(decode_failed("tile-part length exceeded codestream size"));
        }
        let tile_part_end = sot_start + psot as usize;
        let header = TilePartHeader {
            tile_index: read_u16_at(sot_segment, 4).unwrap(),
            part_index: sot_segment[10],
            total_parts: sot_segment[11],
        };
        assert(be16(sot_segment@, 4) == be16(b, sot_start + 4));
        let mut header_segments: Vec<&'a [u8]> = Vec::new();
        let ghost mut ranges: Seq<(nat, nat)> = Seq::empty();
        let ghost se = self.pos as nat;
        assert(tile_part_at(b, sot_start as nat)
            == finish_tile_part(tile_walk(b, se, tile_part_end as nat, Seq::empty()), header, tile_part_end as nat));
        loop
            invariant
                self.bytes@ == b,
                b == old(self).bytes@,
                tile_part_at(b, sot_start as nat)
                    == finish_tile_part(tile_walk(b, se, tile_part_end as nat, Seq::empty()), header, tile_part_end as nat),
                self.pos <= b.len(),
                tile_walk(b, self.pos as nat, tile_part_end as nat, ranges)
                    == tile_walk(b, se, tile_part_end as nat, Seq::empty()),
                slices_at(header_segments@, b, ranges),
            decreases b.len() - self.pos,
        {
            let marker_start = self.position();
            let m = self.read_u16()?;
            if m == MARKER_SOD {
                if self.pos > tile_part_end {
                    return Err(decode_failed("tile-part payload extended past codestream"));
                }
                let payload = vstd::slice::slice_subrange(self.bytes, self.pos, tile_part_end);
                self.pos = tile_part_end;
                return Ok(TilePartView { header, header_segments, payload });
            }
            let seg = self.read_segment(marker_start)?;
            proof {
                ranges = ranges.push((marker_start as nat, self.pos as nat));
            }
            header_segments.push(seg);
        }
    }
}

/// Frames a codestream: its main-header segments and its tile-parts, borrowed from `bytes`.
pub fn parse_codestream_view<'a>(bytes: &'a [u8]) -> (r: Result<CodestreamView<'a>>)
    ensures
        r is Ok <==> codestream_spec(bytes@) is Some,
        r matches Ok(v) ==> view_matches(v, bytes@, codestream_spec(bytes@).unwrap()),
        r matches Err(e) ==> e is DecodeFailed,
{
    let ghost b = bytes@;
    let mut cursor = Cursor::new(bytes);
    let soc = cursor.read_u16()?;
    if soc != MARKER_SOC {
        return Err(decode_failed("codestream did not start with SOC"));
    }
    let mut main_header_segments: Vec<&'a [u8]> = Vec::new();
    let ghost mut main: Seq<(nat, nat)> = Seq::empty();
    loop
        invariant
            cursor.bytes@ == b,
            bytes@ == b,
            2 <= cursor.pos <= b.len(),
            main_walk(b, cursor.pos as nat, main) == codestream_spec(b),
            slices_at(main_header_segments@, b, main),
        decreases b.len() - cursor.pos,
    {
        let marker_start = cursor.position();
        let m = cursor.read_u16()?;
        if m == MARKER_SOT {
            proof { lemma_tile_part_advances(b, marker_start as nat); }
            let first = cursor.read_tile_part(marker_start)?;
            let mut tile_parts: Vec<TilePartView<'a>> = Vec::new();
            tile_parts.push(first);
            let ghost mut tiles: Seq<TilePartSpec> = seq![tile_part_at(b, marker_start as nat).unwrap().0];
            let lim = if bytes.len() >= 2 { bytes.len() - 2 } else { 0 };
            while cursor.position() < lim
                invariant
                    cursor.bytes@ == b,
                    bytes@ == b,
                    lim == (if b.len() >= 2 { b.len() - 2 } else { 0 }),
                    cursor.pos <= b.len(),
                    tiles_walk(b, cursor.pos as nat, main, tiles) == codestream_spec(b),
                    slices_at(main_header_segments@, b, main),
                    tile_parts@.len() == tiles.len(),
                    forall|i: int| 0 <= i < tiles.len() ==> #[trigger] tile_part_matches(tile_parts@[i], b, tiles[i]),
                decreases b.len() - cursor.pos,
            {
                let next_start = cursor.position();
                let next_marker = cursor.read_u16()?;
                if next_marker == MARKER_EOC {
                    return Err(decode_failed("trailing bytes after EOC are unsupported"));
                }
                if next_marker != MARKER_SOT {
                    return Err(decode_failed("unexpected marker after tile-part payload"));
                }
                proof { lemma_tile_part_advances(b, next_start as nat); }
                let t = cursor.read_tile_part(next_start)?;
                proof { tiles = tiles.push(tile_part_at(b, next_start as nat).unwrap().0); }
                tile_parts.push(t);
            }
            if cursor.position() == lim {
                let eoc = cursor.read_u16()?;
                if eoc == MARKER_EOC {
                    return Ok(CodestreamView { main_header_segments, tile_parts });
                }
                return Err(decode_failed("expected EOC at end of codestream"));
            }
            return Err(decode_failed("codestream ended before EOC"));
        }
        let seg = cursor.read_segment(marker_start)?;
        proof { main = main.push((marker_start as nat, cursor.pos as nat)); }
        main_header_segments.push(seg);
    }
}

} // verus!

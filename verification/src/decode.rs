//! The decoder's entry points: inspecting a JP2 file's headers, and decoding it into an image.
use vstd::prelude::*;
use crate::codestream::{CodestreamView, codestream_spec, parse_codestream_view, view_matches, slices_at};
use crate::decode_markers::{CodestreamHeader, SizView};
use crate::error::{Jp2LamError, Result, decode_failed};
use crate::header::{HeaderOutcome, HeaderScan, header_outcome, header_result_agrees, segment_views};
use crate::jp2_parse::{Jp2Header, Parse, jp2_spec, jp2_result_agrees, parse_jp2};
use crate::model::{ColorSpace, Image};
use crate::reconstruct::{DecodedTileCoefficients, finalize_spec, image_ok, output_component, reversible_plane, srgb_plane, tile_decodable, tile_planes};
use crate::reconstruct::{decode_tile_components, reconstruct_image};
use crate::t2_decode::{DecodedCodeBlock, codeblock_matches, parse_tile_part_payload, payload_spec};
use crate::text::{append_decimal, decimal};

verus! {

/// What inspecting a JP2 file reports: its size and colour model, whether it carries IPR
/// metadata, the codestream's main header, and the shape of its tile-parts.
#[derive(Debug, Clone, PartialEq, Eq)]
pub struct DecodeMetadata {
    pub width: u32,
    pub height: u32,
    pub colorspace: ColorSpace,
    pub has_ipr_metadata: bool,
    pub codestream: CodestreamHeader,
    pub tile_part_count: usize,
    pub first_tile_payload_len: usize,
}

/// How the JP2 header and the codestream's SIZ disagree, or what the decoder does not support
/// of them, with the message that says so.
pub enum ScopeVerdict {
    Accepted,
    /// The two headers disagree.
    Mismatch(Seq<char>),
    /// The file is outside what the decoder supports.
    Unsupported(Seq<char>),
}

/// The checks between the JP2 image header and the SIZ segment, in order.
pub open spec fn jp2_scope(h: Jp2Header, s: SizView) -> ScopeVerdict {
    if h.width != s.width || h.height != s.height {
        ScopeVerdict::Mismatch("JP2 ihdr dimensions "@ + decimal(h.width as nat) + "x"@ + decimal(h.height as nat)
            + " do not match SIZ dimensions "@ + decimal(s.width as nat) + "x"@ + decimal(s.height as nat))
    } else if h.bits_per_component != 8 {
        ScopeVerdict::Unsupported("unsupported JP2 bit depth: decoder currently supports 8-bit components, found "@
            + decimal(h.bits_per_component as nat) + " bits"@)
    } else if h.component_count != s.components.len() as u16 {
        ScopeVerdict::Mismatch("JP2 ihdr component count "@ + decimal(h.component_count as nat)
            + " does not match SIZ component count "@ + decimal(s.components.len()))
    } else if h.colorspace == ColorSpace::Gray && h.component_count != 1 {
        ScopeVerdict::Unsupported("unsupported JP2 component count: decoder currently supports one grayscale component, found "@
            + decimal(h.component_count as nat) + " components"@)
    } else if h.colorspace == ColorSpace::Srgb && h.component_count != 3 {
        ScopeVerdict::Unsupported("unsupported JP2 component count: decoder currently supports three sRGB components, found "@
            + decimal(h.component_count as nat) + " components"@)
    } else if h.colorspace != ColorSpace::Gray && h.colorspace != ColorSpace::Srgb {
        ScopeVerdict::Unsupported("unsupported JP2 colorspace: decoder currently supports EnumCS=17 grayscale and EnumCS=16 sRGB"@)
    } else {
        ScopeVerdict::Accepted
    }
}

/// Checks that the JP2 image header agrees with the codestream and stays in the decoder's scope.
pub fn validate_jp2_decode_scope(header: &Jp2Header, codestream: &CodestreamHeader) -> (r: Result<()>)
    ensures
        match jp2_scope(*header, codestream.siz@) {
            ScopeVerdict::Accepted => r is Ok,
            ScopeVerdict::Mismatch(m) => r matches Err(e) && e is DecodeFailed && e.spec_message() == m,
            ScopeVerdict::Unsupported(m) => r matches Err(e) && e is UnsupportedFeature && e.spec_message() == m,
        },
{
    let siz = &codestream.siz;
    if header.width != siz.width || header.height != siz.height {
        let mut m = String::from_str("JP2 ihdr dimensions ");
        append_decimal(&mut m, header.width as u64);
        m.append("x");
        append_decimal(&mut m, header.height as u64);
        m.append(" do not match SIZ dimensions ");
        append_decimal(&mut m, siz.width as u64);
        m.append("x");
        append_decimal(&mut m, siz.height as u64);
        return Err(Jp2LamError::DecodeFailed(m));
    }
    if header.bits_per_component != 8 {
        let mut m = String::from_str(
            "unsupported JP2 bit depth: decoder currently supports 8-bit components, found ");
        append_decimal(&mut m, header.bits_per_component as u64);
        m.append(" bits");
        return Err(Jp2LamError::UnsupportedFeature(m));
    }
    let n = siz.components.len();
    if header.component_count != n as u16 {
        let mut m = String::from_str("JP2 ihdr component count ");
        append_decimal(&mut m, header.component_count as u64);
        m.append(" does not match SIZ component count ");
        append_decimal(&mut m, n as u64);
        return Err(Jp2LamError::DecodeFailed(m));
    }
    if header.colorspace == ColorSpace::Gray && header.component_count != 1 {
        let mut m = String::from_str(
            "unsupported JP2 component count: decoder currently supports one grayscale component, found ");
        append_decimal(&mut m, header.component_count as u64);
        m.append(" components");
        return Err(Jp2LamError::UnsupportedFeature(m));
    }
    if header.colorspace == ColorSpace::Srgb && header.component_count != 3 {
        let mut m = String::from_str(
            "unsupported JP2 component count: decoder currently supports three sRGB components, found ");
        append_decimal(&mut m, header.component_count as u64);
        m.append(" components");
        return Err(Jp2LamError::UnsupportedFeature(m));
    }
    if header.colorspace != ColorSpace::Gray && header.colorspace != ColorSpace::Srgb {
        return Err(Jp2LamError::UnsupportedFeature(String::from_str(
            "unsupported JP2 colorspace: decoder currently supports EnumCS=17 grayscale and EnumCS=16 sRGB")));
    }
    Ok(())
}

/// The bytes of `b` in each range.
pub open spec fn range_bytes(b: Seq<u8>, ranges: Seq<(nat, nat)>) -> Seq<Seq<u8>> {
    Seq::new(ranges.len(), |i: int| b.subrange(ranges[i].0 as int, ranges[i].1 as int))
}

/// What reading the headers of a JP2 file gives.
pub enum InspectOutcome {
    /// The JP2 header, the scanned codestream header, the number of tile-parts and the first
    /// tile-part's payload.
    Inspected(Jp2Header, HeaderScan, nat, Seq<u8>),
    /// Refused as an unsupported feature; the message where it is stated.
    Unsupported(Option<Seq<char>>),
    /// Refused as undecodable; the message where it is stated.
    Failed(Option<Seq<char>>),
}

/// What reading the headers of the JP2 file `b` gives: the container, the codestream framing,
/// the main and first tile-part headers, and the agreement of the JP2 header with SIZ.
pub open spec fn inspect_outcome(b: Seq<u8>) -> InspectOutcome {
    match jp2_spec(b) {
        Parse::Unsupported(m) => InspectOutcome::Unsupported(Some(m)),
        Parse::Failed(om) => InspectOutcome::Failed(om),
        Parse::Done((h, s, e)) => {
            let cs = b.subrange(s as int, e as int);
            match codestream_spec(cs) {
                None => InspectOutcome::Failed(None),
                Some(spec) => {
                    if spec.tiles.len() == 0 {
                        InspectOutcome::Failed(Some("codestream has no tile-part"@))
                    } else if spec.main.len() + spec.tiles[0].segments.len() > usize::MAX {
                        InspectOutcome::Failed(None)
                    } else {
                        let t = spec.tiles[0];
                        match header_outcome(range_bytes(cs, spec.main), range_bytes(cs, t.segments), t.header,
                            spec.tiles.len()) {
                            HeaderOutcome::Unsupported(m) => InspectOutcome::Unsupported(Some(m)),
                            HeaderOutcome::Failed(om) => InspectOutcome::Failed(om),
                            HeaderOutcome::Built(hs) => match jp2_scope(h, hs.siz.unwrap()) {
                                ScopeVerdict::Mismatch(m) => InspectOutcome::Failed(Some(m)),
                                ScopeVerdict::Unsupported(m) => InspectOutcome::Unsupported(Some(m)),
                                ScopeVerdict::Accepted => InspectOutcome::Inspected(h, hs, spec.tiles.len(),
                                    cs.subrange(t.payload.0 as int, t.payload.1 as int)),
                            },
                        }
                    }
                },
            }
        },
    }
}

/// `r` is an error of the kind, and with the message, that `o` gives, if `o` is a refusal.
pub open spec fn refusal_agrees<T>(r: Result<T>, o: InspectOutcome) -> bool {
    match o {
        InspectOutcome::Inspected(..) => true,
        InspectOutcome::Unsupported(om) => r matches Err(e) && e is UnsupportedFeature
            && (om matches Some(m) ==> e.spec_message() == m),
        InspectOutcome::Failed(om) => r matches Err(e) && e is DecodeFailed
            && (om matches Some(m) ==> e.spec_message() == m),
    }
}

/// `hdr` is the header that the scan `hs` describes.
pub open spec fn header_matches(hdr: CodestreamHeader, hs: HeaderScan) -> bool {
    &&& hs.siz == Some(hdr.siz@)
    &&& hs.cod == Some(hdr.cod@)
    &&& hs.qcd == Some(hdr.qcd@)
    &&& hs.comments == hdr.comment_count
}

/// The headers of a JP2 file, its codestream framing and its first tile-part's payload.
fn read_headers<'a>(bytes: &'a [u8]) -> (r: Result<(Jp2Header, CodestreamHeader, &'a [u8], usize)>)
    ensures
        refusal_agrees(r, inspect_outcome(bytes@)),
        r is Ok <==> inspect_outcome(bytes@) is Inspected,
        r matches Ok((h, hdr, payload, count)) ==> inspect_outcome(bytes@) matches InspectOutcome::Inspected(h2, hs, n, p)
            && h == h2 && header_matches(hdr, hs) && count == n && payload@ == p,
{
    let parsed = parse_jp2(bytes)?;
    let ghost b = bytes@;
    let parts = parse_codestream_view(parsed.codestream)?;
    let ghost cs = parsed.codestream@;
    let ghost spec = codestream_spec(cs).unwrap();
    if parts.tile_parts.len() == 0 {
        return Err(decode_failed("codestream has no tile-part"));
    }
    let first = &parts.tile_parts[0];
    assert(crate::codestream::tile_part_matches(parts.tile_parts@[0], cs, spec.tiles[0]));
    let main = parts.main_header_segments.as_slice();
    let tile = first.header_segments.as_slice();
    if main.len() > usize::MAX - tile.len() {
        return Err(decode_failed("too many header marker segments"));
    }
    proof {
        assert(segment_views(main@) =~= range_bytes(cs, spec.main));
        assert(segment_views(tile@) =~= range_bytes(cs, spec.tiles[0].segments));
    }
    let count = parts.tile_parts.len();
    let codestream = CodestreamHeader::from_marker_segments_with_tile_headers(main, tile, first.header, count)?;
    validate_jp2_decode_scope(&parsed.header, &codestream)?;
    Ok((parsed.header, codestream, first.payload, count))
}

/// What inspecting a JP2 file gives.
pub open spec fn inspect_agrees(r: Result<DecodeMetadata>, b: Seq<u8>) -> bool {
    let o = inspect_outcome(b);
    &&& refusal_agrees(r, o)
    &&& (r is Ok <==> o is Inspected)
    &&& (r matches Ok(md) ==> o matches InspectOutcome::Inspected(h, hs, n, p)
        && md.width == h.width && md.height == h.height && md.colorspace == h.colorspace
        && md.has_ipr_metadata == h.has_ipr_metadata && header_matches(md.codestream, hs)
        && md.tile_part_count == n && md.first_tile_payload_len == p.len())
}

/// Parses the JP2 wrapper and the codestream's main header: validates the container, frames
/// the first codestream box, decodes the SIZ, COD and QCD segments that packet and code-block
/// decoding need, and checks that the file stays inside the decoder's scope.
pub fn inspect_jp2(bytes: &[u8]) -> (r: Result<DecodeMetadata>)
    ensures
        inspect_agrees(r, bytes@),
{
    let (header, codestream, payload, count) = read_headers(bytes)?;
    Ok(DecodeMetadata {
        width: header.width,
        height: header.height,
        colorspace: header.colorspace,
        has_ipr_metadata: header.has_ipr_metadata,
        codestream,
        tile_part_count: count,
        first_tile_payload_len: payload.len(),
    })
}

/// `blocks` are the code-block contributions that the packets of `payload` carry.
pub open spec fn blocks_from(hdr: CodestreamHeader, payload: Seq<u8>, blocks: Seq<DecodedCodeBlock>) -> bool {
    payload_spec(hdr, payload) matches Some((pk, cb)) && blocks.len() == cb.len()
        && forall|i: int| 0 <= i < cb.len() ==> #[trigger] codeblock_matches(blocks[i], payload, cb[i])
}

/// `tiles` are the component coefficients that the code-blocks of `payload` decode to.
pub open spec fn tiles_decoded(hdr: CodestreamHeader, payload: Seq<u8>, tiles: Seq<DecodedTileCoefficients>) -> bool {
    exists|blocks: Seq<DecodedCodeBlock>| #[trigger] blocks_from(hdr, payload, blocks)
        && tiles.len() == hdr.siz.components@.len()
        && forall|c: int| 0 <= c < tiles.len() ==> (#[trigger] tiles[c]).component == c
            && tiles[c].coefficients@ == tile_planes(hdr, blocks, (hdr.siz.width * hdr.siz.height) as nat)[c]
}

/// `img` is what the components `tiles` reconstruct to in `colorspace`: the inverse 5/3
/// transform, the inverse colour transform where the header asks for it, and the inverse DC
/// shift.
pub open spec fn image_from(img: Image, hdr: CodestreamHeader, colorspace: ColorSpace, tiles: Seq<DecodedTileCoefficients>) -> bool {
    &&& img.colorspace == colorspace && img.width == hdr.siz.width && img.height == hdr.siz.height
    &&& colorspace == ColorSpace::Gray ==> img.components@.len() == 1
        && output_component(img.components@[0], hdr.siz.components@[0],
            finalize_spec(reversible_plane(hdr, tiles[0].coefficients@)), hdr.siz.width, hdr.siz.height)
    &&& colorspace == ColorSpace::Srgb ==> img.components@.len() == 3
        && forall|k: int| 0 <= k < 3 ==> output_component(#[trigger] img.components@[k], hdr.siz.components@[k],
            srgb_plane(hdr, tiles, k as usize), hdr.siz.width, hdr.siz.height)
}

/// `tiles` are the components that the contributions `blocks` decode to under `hdr`, one per
/// component, each the size of the image.
pub open spec fn tiles_of(hdr: CodestreamHeader, blocks: Seq<DecodedCodeBlock>, tiles: Seq<DecodedTileCoefficients>) -> bool {
    &&& tiles.len() == hdr.siz.components@.len()
    &&& forall|i: int| 0 <= i < tiles.len() ==> (#[trigger] tiles[i]).component == i && tiles[i].width == hdr.siz.width
        && tiles[i].height == hdr.siz.height && tiles[i].coefficients@.len() == tiles[i].width * tiles[i].height
        && tiles[i].coefficients@ == tile_planes(hdr, blocks, (hdr.siz.width * hdr.siz.height) as nat)[i]
}

/// `bytes` is a JP2 file that decodes: its headers are read, and under the main header they give,
/// the code-block size is not empty, the packets parse, every contribution decodes and fits, and
/// the components reconstruct in the file's colour space.
pub open spec fn jp2_decodable(bytes: Seq<u8>) -> bool {
    inspect_outcome(bytes) matches InspectOutcome::Inspected(h, hs, n, p)
        && forall|hdr: CodestreamHeader| #[trigger] header_matches(hdr, hs) ==> {
            &&& hdr.cod.code_block_width >= 1 && hdr.cod.code_block_height >= 1
            &&& payload_spec(hdr, p) is Some
            &&& forall|blocks: Seq<DecodedCodeBlock>| #[trigger] blocks_from(hdr, p, blocks) ==> {
                &&& tile_decodable(hdr, blocks)
                &&& forall|tiles: Seq<DecodedTileCoefficients>| #[trigger] tiles_of(hdr, blocks, tiles)
                    ==> image_ok(hdr, h.colorspace, tiles)
            }
        }
}

/// `img` is an image that JP2 file `bytes` decodes to: its size and colour model from the JP2
/// header, and its samples reconstructed from the coefficients that the codestream codes.
pub open spec fn jp2_decodes(bytes: Seq<u8>, img: Image) -> bool {
    inspect_outcome(bytes) matches InspectOutcome::Inspected(h, hs, n, p)
        && img.width == h.width && img.height == h.height && img.colorspace == h.colorspace
        && img.components@.len() == h.component_count
        && (forall|k: int| 0 <= k < img.components@.len() ==> (#[trigger] img.components@[k]).data@.len()
            == (h.width as nat) * (h.height as nat))
        && exists|hdr: CodestreamHeader, tiles: Seq<DecodedTileCoefficients>| #[trigger] image_from(img, hdr, h.colorspace, tiles)
            && header_matches(hdr, hs) && tiles_decoded(hdr, p, tiles)
}

/// The coefficients of a JP2 file, before any inverse transform: the JP2 header, the codestream
/// header and each component's plane of coefficients as Tier-1 decodes them (for the 9/7 path,
/// the quantization indices). This does not depend on which wavelet the codestream uses.
pub fn decode_jp2_coefficients(bytes: &[u8]) -> (r: Result<(Jp2Header, CodestreamHeader, Vec<DecodedTileCoefficients>)>)
    ensures
        refusal_agrees(r, inspect_outcome(bytes@)),
        r matches Ok((h, hdr, tiles)) ==> inspect_outcome(bytes@) matches InspectOutcome::Inspected(h2, hs, n, p)
            && h == h2 && header_matches(hdr, hs) && tiles_decoded(hdr, p, tiles@)
            && forall|c: int| 0 <= c < tiles@.len() ==> (#[trigger] tiles@[c]).width == hdr.siz.width
                && tiles@[c].height == hdr.siz.height && tiles@[c].coefficients@.len() == tiles@[c].width * tiles@[c].height,
        (inspect_outcome(bytes@) matches InspectOutcome::Inspected(h, hs, n, p)
            && forall|hdr: CodestreamHeader| #[trigger] header_matches(hdr, hs) ==> {
                &&& hdr.cod.code_block_width >= 1 && hdr.cod.code_block_height >= 1
                &&& payload_spec(hdr, p) is Some
                &&& forall|blocks: Seq<DecodedCodeBlock>| #[trigger] blocks_from(hdr, p, blocks) ==> tile_decodable(hdr, blocks)
            }) ==> r is Ok,
        r matches Err(e) ==> e is DecodeFailed || e is UnsupportedFeature,
{
    let (header, codestream, payload, count) = read_headers(bytes)?;
    if codestream.cod.code_block_width == 0 || codestream.cod.code_block_height == 0 {
        return Err(decode_failed("COD code-block size is empty"));
    }
    let packets = parse_tile_part_payload(&codestream, payload)?;
    proof { assert(blocks_from(codestream, payload@, packets.codeblocks@)); }
    let components = decode_tile_components(&codestream, &packets)?;
    proof {
        assert(blocks_from(codestream, payload@, packets.codeblocks@));
        assert(tiles_decoded(codestream, payload@, components@));
    }
    Ok((header, codestream, components))
}

/// Decodes a JP2 file whose single tile is coded with the reversible 5/3 path into an image:
/// grayscale or sRGB, unsigned 8-bit, LRCP progression, no precincts, SOP or EPH markers and the
/// default code-block style. The irreversible 9/7 path reconstructs in floating point and is
/// refused here as an unsupported feature.
pub fn decode_jp2(bytes: &[u8]) -> (r: Result<Image>)
    ensures
        refusal_agrees(r, inspect_outcome(bytes@)),
        r matches Ok(img) ==> inspect_outcome(bytes@) matches InspectOutcome::Inspected(h, hs, n, p)
            && img.width == h.width && img.height == h.height && img.colorspace == h.colorspace
            && img.components@.len() == h.component_count
            && forall|k: int| 0 <= k < img.components@.len() ==> (#[trigger] img.components@[k]).data@.len()
                == (h.width as nat) * (h.height as nat),
        r matches Ok(img) ==> inspect_outcome(bytes@) matches InspectOutcome::Inspected(h, hs, n, p)
            && exists|hdr: CodestreamHeader, tiles: Seq<DecodedTileCoefficients>| #[trigger] image_from(img, hdr, h.colorspace, tiles)
                && header_matches(hdr, hs) && tiles_decoded(hdr, p, tiles),
        r matches Ok(img) ==> jp2_decodes(bytes@, img),
        jp2_decodable(bytes@) ==> r is Ok,
        r matches Err(e) ==> e is DecodeFailed || e is UnsupportedFeature || e is EncodeFailed,
{
    let (header, codestream, payload, count) = read_headers(bytes)?;
    if codestream.cod.code_block_width == 0 || codestream.cod.code_block_height == 0 {
        return Err(decode_failed("COD code-block size is empty"));
    }
    let packets = parse_tile_part_payload(&codestream, payload)?;
    proof { assert(blocks_from(codestream, payload@, packets.codeblocks@)); }
    let components = decode_tile_components(&codestream, &packets)?;
    let ghost tiles = components@;
    proof { assert(tiles_of(codestream, packets.codeblocks@, tiles)); }
    let image = reconstruct_image(&codestream, header.colorspace, components)?;
    proof {
        assert(blocks_from(codestream, payload@, packets.codeblocks@));
        assert(tiles_decoded(codestream, payload@, tiles));
        assert(image_from(image, codestream, header.colorspace, tiles));
    }
    Ok(image)
}

} // verus!

//! Assembling the main header of a codestream and holding it to the decoder's scope.
use vstd::prelude::*;
use crate::decode_markers::{
    CodSegment, CodView, CodeBlockStyle, ComponentSiz, ProgressionOrder, QcdSegment, QcdView, QuantizationStyle,
    SizSegment, SizView, WaveletTransform, pow2_int, CodestreamHeader, marker, parse_siz, parse_cod, parse_qcd,
    seg_framed, seg_body, siz_body_ok, cod_body_ok, cod_segment_refusal, qcd_body_ok, siz_view, cod_view, qcd_view,
    MARKER_SIZ, MARKER_COD, MARKER_QCD, MARKER_COM, MARKER_CAP, MARKER_COC, MARKER_TLM, MARKER_PLM,
    MARKER_PLT, MARKER_QCC, MARKER_RGN, MARKER_POC, MARKER_PPM, MARKER_PPT, MARKER_CRG,
};
use crate::error::{Jp2LamError, Result, decode_failed};
use crate::plan_types::TilePartHeader;
use crate::text::{append_decimal, append_hex4, decimal, hex4};
use crate::bytes::be16;

verus! {

// ----------------------------------------------------------------------------
// The decoder's scope
// ----------------------------------------------------------------------------

/// floor(log2(n)) for n >= 1, and 0 for n <= 1.
pub open spec fn floor_log2(n: nat) -> nat
    decreases n,
{
    if n <= 1 { 0 } else { 1 + floor_log2(n / 2) }
}

/// The largest number of wavelet decompositions an image of this size allows.
pub open spec fn max_decompositions(width: u32, height: u32) -> nat {
    let m = if width < height { width } else { height };
    if m <= 1 { 0 } else { floor_log2(m as nat) }
}

/// The message rejecting one component, if it is outside the scope.
pub open spec fn component_issue(c: ComponentSiz, idx: nat) -> Option<Seq<char>> {
    if c.precision != 8 || c.signed {
        Some("unsupported sample precision: decoder currently supports unsigned 8-bit samples, component "@
            + decimal(idx) + " is "@ + decimal(c.precision as nat) + "-bit "@
            + (if c.signed { "signed"@ } else { "unsigned"@ }))
    } else if c.dx != 1 || c.dy != 1 {
        Some("subsampled components are unsupported: component "@ + decimal(idx) + " has dx="@
            + decimal(c.dx as nat) + " dy="@ + decimal(c.dy as nat))
    } else {
        None
    }
}

/// The message rejecting the first component from `from` on that is outside the scope.
pub open spec fn components_issue(comps: Seq<ComponentSiz>, from: nat) -> Option<Seq<char>>
    decreases comps.len() - from,
{
    if from >= comps.len() {
        None
    } else {
        match component_issue(comps[from as int], from) {
            Some(m) => Some(m),
            None => components_issue(comps, from + 1),
        }
    }
}

/// The message rejecting the code-block style, if any of its flags is set.
pub open spec fn style_issue(s: CodeBlockStyle) -> Option<Seq<char>> {
    if s.bypass {
        Some("unsupported code-block style: arithmetic bypass is not implemented"@)
    } else if s.reset_contexts {
        Some("unsupported code-block style: context reset is not implemented"@)
    } else if s.terminate_each_pass {
        Some("unsupported code-block style: pass termination is not implemented"@)
    } else if s.vertical_causal {
        Some("unsupported code-block style: vertical causal context is not implemented"@)
    } else if s.predictable_termination {
        Some("unsupported code-block style: predictable termination is not implemented"@)
    } else if s.segmentation_symbols {
        Some("unsupported code-block style: segmentation symbols are not implemented"@)
    } else {
        None
    }
}

/// The message rejecting the pairing of wavelet and quantization style, if it is unsupported.
pub open spec fn quantization_issue(t: WaveletTransform, q: QuantizationStyle) -> Option<Seq<char>> {
    match (t, q) {
        (WaveletTransform::Reversible53, QuantizationStyle::NoQuantization) => None,
        (WaveletTransform::Irreversible97, QuantizationStyle::ScalarExpounded) => None,
        (WaveletTransform::Irreversible97, QuantizationStyle::ScalarDerived) =>
            Some("unsupported quantization: scalar-derived QCD is not implemented"@),
        (WaveletTransform::Irreversible97, QuantizationStyle::NoQuantization) =>
            Some("unsupported quantization: irreversible 9/7 requires scalar quantization"@),
        (WaveletTransform::Reversible53, _) =>
            Some("unsupported quantization: reversible 5/3 currently supports no-quantization QCD only"@),
    }
}

/// The checks on the tile-part and the image, in the order the decoder makes them.
pub open spec fn image_scope_issue(t: TilePartHeader, s: SizView) -> Option<Seq<char>> {
    let n = s.components.len();
    if t.tile_index != 0 {
        Some("only tile index 0 is supported"@)
    } else if t.part_index != 0 {
        Some("only first tile-part is supported"@)
    } else if t.total_parts > 1 {
        Some("unsupported tiling: multiple tile-parts are not implemented"@)
    } else if s.rsiz != 0 {
        Some("only Part 1 Rsiz=0 codestreams are supported"@)
    } else if s.x_origin != 0 || s.y_origin != 0 || s.tile_x_origin != 0 || s.tile_y_origin != 0 {
        Some("non-zero image or tile origins are unsupported"@)
    } else if s.tile_width != s.width || s.tile_height != s.height {
        Some("unsupported tiling: decoder currently supports only a single full-image tile"@)
    } else if n != 1 && n != 3 {
        Some("unsupported component layout: decoder currently supports one grayscale component or three sRGB components, found "@
            + decimal(n) + " components"@)
    } else {
        components_issue(s.components, 0)
    }
}

/// The checks on the coding style, the quantization and their agreement with the image.
pub open spec fn coding_scope_issue(s: SizView, c: CodView, q: QcdView) -> Option<Seq<char>> {
    let n = s.components.len();
    let maxd = max_decompositions(s.width, s.height);
    let expected = 1 + 3 * c.decomposition_levels;
    if c.progression_order != ProgressionOrder::Lrcp {
        Some("only LRCP progression is supported"@)
    } else if c.decomposition_levels > maxd {
        Some("COD decomposition levels "@ + decimal(c.decomposition_levels as nat) + " exceed DWT limit "@
            + decimal(maxd) + " for image dimensions "@ + decimal(s.width as nat) + "x"@
            + decimal(s.height as nat))
    } else if c.layers == 0 {
        Some("COD must signal at least one layer"@)
    } else if c.layers != 1 {
        Some("unsupported quality layers: decoder currently supports exactly one layer, found "@
            + decimal(c.layers as nat))
    } else if n == 1 && c.use_mct {
        Some("MCT is unsupported for grayscale decoder slice"@)
    } else if n == 3 && !c.use_mct {
        Some("unsupported RGB codestream: expected MCT=1 for Archive.org sRGB profile"@)
    } else if c.uses_precincts || c.sop_markers || c.eph_markers {
        Some("unsupported packet syntax: precinct partitioning, SOP markers, and EPH markers are not implemented"@)
    } else if style_issue(c.code_block_style) is Some {
        style_issue(c.code_block_style)
    } else if quantization_issue(c.transform, q.style) is Some {
        quantization_issue(c.transform, q.style)
    } else if c.code_block_width > 1024 || c.code_block_height > 1024
        || c.code_block_width * c.code_block_height > 4096 {
        Some("COD code-block size exceeds Part 1 limits"@)
    } else if q.steps.len() == 0 {
        Some("QCD must provide at least one quantization step"@)
    } else if q.style != QuantizationStyle::ScalarDerived && q.steps.len() != expected {
        Some("QCD step count "@ + decimal(q.steps.len()) + " does not match decomposition levels "@
            + decimal(c.decomposition_levels as nat) + "; expected "@ + decimal(expected as nat) + " steps"@)
    } else {
        None
    }
}

/// Why the decoder refuses a codestream with these header fields, or `None` if it takes it.
pub open spec fn scope_issue(t: TilePartHeader, s: SizView, c: CodView, q: QcdView) -> Option<Seq<char>> {
    match image_scope_issue(t, s) {
        Some(m) => Some(m),
        None => coding_scope_issue(s, c, q),
    }
}

pub proof fn lemma_floor_log2_bound(n: nat, k: nat)
    requires
        n < pow2_int(k),
        k >= 1,
    ensures
        floor_log2(n) < k,
    decreases n,
{
    if n > 1 {
        if k == 1 {
            assert(pow2_int(1) == 2) by { reveal_with_fuel(pow2_int, 2); }
        } else {
            assert(pow2_int(k) == 2 * pow2_int((k - 1) as nat));
            lemma_floor_log2_bound(n / 2, (k - 1) as nat);
        }
    }
}

/// The largest number of decompositions an image of this size allows.
pub fn max_dwt_decompositions(width: u32, height: u32) -> (d: u8)
    ensures
        d == max_decompositions(width, height),
{
    let min_dim = if width < height { width } else { height };
    if min_dim <= 1 {
        return 0;
    }
    proof {
        assert(pow2_int(32) == 0x1_0000_0000) by { reveal_with_fuel(pow2_int, 33); }
        lemma_floor_log2_bound(min_dim as nat, 32);
    }
    let mut n: u32 = min_dim;
    let mut k: u8 = 0;
    while n > 1
        invariant
            k + floor_log2(n as nat) == floor_log2(min_dim as nat),
            floor_log2(min_dim as nat) < 32,
        decreases n,
    {
        n = n / 2;
        k = k + 1;
    }
    k
}

fn component_check(c: ComponentSiz, idx: usize) -> (r: Result<()>)
    ensures
        r is Ok <==> component_issue(c, idx as nat) is None,
        r matches Err(e) ==> e is DecodeFailed && Some(e.spec_message()) == component_issue(c, idx as nat),
{
    if c.precision != 8 || c.signed {
        let mut m = String::from_str(
            "unsupported sample precision: decoder currently supports unsigned 8-bit samples, component ",
        );
        append_decimal(&mut m, idx as u64);
        m.append(" is ");
        append_decimal(&mut m, c.precision as u64);
        m.append("-bit ");
        m.append(if c.signed { "signed" } else { "unsigned" });
        return Err(Jp2LamError::DecodeFailed(m));
    }
    if c.dx != 1 || c.dy != 1 {
        let mut m = String::from_str("subsampled components are unsupported: component ");
        append_decimal(&mut m, idx as u64);
        m.append(" has dx=");
        append_decimal(&mut m, c.dx as u64);
        m.append(" dy=");
        append_decimal(&mut m, c.dy as u64);
        return Err(Jp2LamError::DecodeFailed(m));
    }
    Ok(())
}

fn style_check(s: CodeBlockStyle) -> (r: Result<()>)
    ensures
        r is Ok <==> style_issue(s) is None,
        r matches Err(e) ==> e is DecodeFailed && Some(e.spec_message()) == style_issue(s),
{
    if s.bypass {
        return Err(decode_failed("unsupported code-block style: arithmetic bypass is not implemented"));
    }
    if s.reset_contexts {
        return Err(decode_failed("unsupported code-block style: context reset is not implemented"));
    }
    if s.terminate_each_pass {
        return Err(decode_failed("unsupported code-block style: pass termination is not implemented"));
    }
    if s.vertical_causal {
        return Err(decode_failed("unsupported code-block style: vertical causal context is not implemented"));
    }
    if s.predictable_termination {
        return Err(decode_failed("unsupported code-block style: predictable termination is not implemented"));
    }
    if s.segmentation_symbols {
        return Err(decode_failed("unsupported code-block style: segmentation symbols are not implemented"));
    }
    Ok(())
}

fn quantization_check(t: WaveletTransform, q: QuantizationStyle) -> (r: Result<()>)
    ensures
        r is Ok <==> quantization_issue(t, q) is None,
        r matches Err(e) ==> e is DecodeFailed && Some(e.spec_message()) == quantization_issue(t, q),
{
    match (t, q) {
        (WaveletTransform::Reversible53, QuantizationStyle::NoQuantization) => Ok(()),
        (WaveletTransform::Irreversible97, QuantizationStyle::ScalarExpounded) => Ok(()),
        (WaveletTransform::Irreversible97, QuantizationStyle::ScalarDerived) => {
            Err(decode_failed("unsupported quantization: scalar-derived QCD is not implemented"))
        },
        (WaveletTransform::Irreversible97, QuantizationStyle::NoQuantization) => {
            Err(decode_failed("unsupported quantization: irreversible 9/7 requires scalar quantization"))
        },
        (WaveletTransform::Reversible53, _) => {
            Err(decode_failed("unsupported quantization: reversible 5/3 currently supports no-quantization QCD only"))
        },
    }
}

fn image_scope_check(t: TilePartHeader, siz: &SizSegment) -> (r: Result<()>)
    ensures
        r is Ok <==> image_scope_issue(t, siz@) is None,
        r matches Err(e) ==> e is DecodeFailed && Some(e.spec_message()) == image_scope_issue(t, siz@),
{
    if t.tile_index != 0 {
        return Err(decode_failed("only tile index 0 is supported"));
    }
    if t.part_index != 0 {
        return Err(decode_failed("only first tile-part is supported"));
    }
    if t.total_parts > 1 {
        return Err(decode_failed("unsupported tiling: multiple tile-parts are not implemented"));
    }
    if siz.rsiz != 0 {
        return Err(decode_failed("only Part 1 Rsiz=0 codestreams are supported"));
    }
    if siz.x_origin != 0 || siz.y_origin != 0 || siz.tile_x_origin != 0 || siz.tile_y_origin != 0 {
        return Err(decode_failed("non-zero image or tile origins are unsupported"));
    }
    if siz.tile_width != siz.width || siz.tile_height != siz.height {
        return Err(decode_failed("unsupported tiling: decoder currently supports only a single full-image tile"));
    }
    let n = siz.components.len();
    if n != 1 && n != 3 {
        let mut m = String::from_str(
            "unsupported component layout: decoder currently supports one grayscale component or three sRGB components, found ",
        );
        append_decimal(&mut m, n as u64);
        m.append(" components");
        return Err(Jp2LamError::DecodeFailed(m));
    }
    let mut idx: usize = 0;
    while idx < n
        invariant
            n == siz.components@.len(),
            idx <= n,
            components_issue(siz.components@, 0) == components_issue(siz.components@, idx as nat),
            image_scope_issue(t, siz@) == components_issue(siz.components@, 0),
        decreases n - idx,
    {
        let res = component_check(siz.components[idx], idx);
        assert(components_issue(siz.components@, idx as nat) == match component_issue(siz.components@[idx as int], idx as nat) {
            Some(m) => Some(m),
            None => components_issue(siz.components@, (idx + 1) as nat),
        });
        if let Err(e) = res {
            return Err(e);
        }
        idx += 1;
    }
    Ok(())
}

fn coding_scope_check(siz: &SizSegment, cod: &CodSegment, qcd: &QcdSegment) -> (r: Result<()>)
    ensures
        r is Ok <==> coding_scope_issue(siz@, cod@, qcd@) is None,
        r matches Err(e) ==> e is DecodeFailed && Some(e.spec_message()) == coding_scope_issue(siz@, cod@, qcd@),
{
    let n = siz.components.len();
    if cod.progression_order != ProgressionOrder::Lrcp {
        return Err(decode_failed("only LRCP progression is supported"));
    }
    let maxd = max_dwt_decompositions(siz.width, siz.height);
    if cod.decomposition_levels > maxd {
        let mut m = String::from_str("COD decomposition levels ");
        append_decimal(&mut m, cod.decomposition_levels as u64);
        m.append(" exceed DWT limit ");
        append_decimal(&mut m, maxd as u64);
        m.append(" for image dimensions ");
        append_decimal(&mut m, siz.width as u64);
        m.append("x");
        append_decimal(&mut m, siz.height as u64);
        return Err(Jp2LamError::DecodeFailed(m));
    }
    if cod.layers == 0 {
        return Err(decode_failed("COD must signal at least one layer"));
    }
    if cod.layers != 1 {
        let mut m = String::from_str(
            "unsupported quality layers: decoder currently supports exactly one layer, found ",
        );
        append_decimal(&mut m, cod.layers as u64);
        return Err(Jp2LamError::DecodeFailed(m));
    }
    if n == 1 && cod.use_mct {
        return Err(decode_failed("MCT is unsupported for grayscale decoder slice"));
    }
    if n == 3 && !cod.use_mct {
        return Err(decode_failed("unsupported RGB codestream: expected MCT=1 for Archive.org sRGB profile"));
    }
    if cod.uses_precincts || cod.sop_markers || cod.eph_markers {
        return Err(decode_failed(
            "unsupported packet syntax: precinct partitioning, SOP markers, and EPH markers are not implemented",
        ));
    }
    style_check(cod.code_block_style)?;
    quantization_check(cod.transform, qcd.style)?;
    if cod.code_block_width > 1024 || cod.code_block_height > 1024 {
        return Err(decode_failed("COD code-block size exceeds Part 1 limits"));
    }
    let (w, h) = (cod.code_block_width, cod.code_block_height);
    assert(w * h <= 1024 * 1024) by (nonlinear_arith)
        requires w <= 1024, h <= 1024;
    if w * h > 4096 {
        return Err(decode_failed("COD code-block size exceeds Part 1 limits"));
    }
    if qcd.steps.len() == 0 {
        return Err(decode_failed("QCD must provide at least one quantization step"));
    }
    let expected: usize = 1 + 3 * (cod.decomposition_levels as usize);
    let derived = match qcd.style {
        QuantizationStyle::ScalarDerived => true,
        _ => false,
    };
    if !derived && qcd.steps.len() != expected {
        let mut m = String::from_str("QCD step count ");
        append_decimal(&mut m, qcd.steps.len() as u64);
        m.append(" does not match decomposition levels ");
        append_decimal(&mut m, cod.decomposition_levels as u64);
        m.append("; expected ");
        append_decimal(&mut m, expected as u64);
        m.append(" steps");
        return Err(Jp2LamError::DecodeFailed(m));
    }
    Ok(())
}

/// Checks that the header fields stay inside what the decoder supports.
pub fn validate_decoder_scope(
    first_tile_header: TilePartHeader,
    siz: &SizSegment,
    cod: &CodSegment,
    qcd: &QcdSegment,
) -> (r: Result<()>)
    ensures
        r is Ok <==> scope_issue(first_tile_header, siz@, cod@, qcd@) is None,
        r matches Err(e) ==> e is DecodeFailed
            && Some(e.spec_message()) == scope_issue(first_tile_header, siz@, cod@, qcd@),
{
    image_scope_check(first_tile_header, siz)?;
    coding_scope_check(siz, cod, qcd)
}

// ----------------------------------------------------------------------------
// Marker allow-lists
// ----------------------------------------------------------------------------

/// The message naming an unsupported feature and its marker.
pub open spec fn feature_message(name: Seq<char>, m: u16) -> Seq<char> {
    "unsupported JPEG 2000 feature: "@ + name + " (marker 0x"@ + hex4(m) + ")"@
}

/// Why a marker is refused in the main header, or `None` if it is accepted there.
pub open spec fn main_marker_issue(m: u16) -> Option<Seq<char>> {
    if m == MARKER_SIZ || m == MARKER_COD || m == MARKER_QCD || m == MARKER_COM { None }
    else if m == MARKER_CAP { Some(feature_message("CAP capabilities marker"@, m)) }
    else if m == MARKER_COC { Some(feature_message("COC component coding-style override"@, m)) }
    else if m == MARKER_TLM { Some(feature_message("TLM tile-part length marker"@, m)) }
    else if m == MARKER_PLM { Some(feature_message("PLM packet-length marker"@, m)) }
    else if m == MARKER_PLT { Some(feature_message("PLT packet-length marker"@, m)) }
    else if m == MARKER_QCC { Some(feature_message("QCC component quantization override"@, m)) }
    else if m == MARKER_RGN { Some(feature_message("RGN region-of-interest marker"@, m)) }
    else if m == MARKER_POC { Some(feature_message("POC progression-order change marker"@, m)) }
    else if m == MARKER_PPM { Some(feature_message("PPM packed packet headers"@, m)) }
    else if m == MARKER_PPT { Some(feature_message("PPT packed packet headers"@, m)) }
    else if m == MARKER_CRG { Some(feature_message("CRG component registration marker"@, m)) }
    else { Some("unsupported codestream marker 0x"@ + hex4(m) + " in main header"@) }
}

/// Why a marker is refused in a tile-part header, or `None` if it is accepted there.
pub open spec fn tile_marker_issue(m: u16) -> Option<Seq<char>> {
    if m == MARKER_COM { None }
    else if m == MARKER_COD { Some(feature_message("tile-part COD coding-style override"@, m)) }
    else if m == MARKER_COC { Some(feature_message("tile-part COC component coding-style override"@, m)) }
    else if m == MARKER_QCD { Some(feature_message("tile-part QCD quantization override"@, m)) }
    else if m == MARKER_QCC { Some(feature_message("tile-part QCC component quantization override"@, m)) }
    else if m == MARKER_RGN { Some(feature_message("tile-part RGN region-of-interest marker"@, m)) }
    else if m == MARKER_POC { Some(feature_message("tile-part POC progression-order change marker"@, m)) }
    else if m == MARKER_PLT { Some(feature_message("tile-part PLT packet-length marker"@, m)) }
    else if m == MARKER_PPT { Some(feature_message("tile-part PPT packed packet headers"@, m)) }
    else { Some("unsupported codestream marker 0x"@ + hex4(m) + " in tile-part header"@) }
}

fn unsupported_marker(m: u16, name: &str) -> (e: Jp2LamError)
    ensures
        e is UnsupportedFeature,
        e.spec_message() == feature_message(name@, m),
{
    let mut s = String::from_str("unsupported JPEG 2000 feature: ");
    s.append(name);
    s.append(" (marker 0x");
    append_hex4(&mut s, m);
    s.append(")");
    Jp2LamError::UnsupportedFeature(s)
}

fn unknown_marker(m: u16, place: &str) -> (e: Jp2LamError)
    ensures
        e is UnsupportedFeature,
        e.spec_message() == "unsupported codestream marker 0x"@ + hex4(m) + place@,
{
    let mut s = String::from_str("unsupported codestream marker 0x");
    append_hex4(&mut s, m);
    s.append(place);
    Jp2LamError::UnsupportedFeature(s)
}

/// Refuses the markers that the main header may not hold.
pub fn reject_unsupported_main_marker(m: u16) -> (r: Result<()>)
    ensures
        r is Ok <==> main_marker_issue(m) is None,
        r matches Err(e) ==> e is UnsupportedFeature && Some(e.spec_message()) == main_marker_issue(m),
{
    if m == MARKER_SIZ || m == MARKER_COD || m == MARKER_QCD || m == MARKER_COM {
        Ok(())
    } else if m == MARKER_CAP {
        Err(unsupported_marker(m, "CAP capabilities marker"))
    } else if m == MARKER_COC {
        Err(unsupported_marker(m, "COC component coding-style override"))
    } else if m == MARKER_TLM {
        Err(unsupported_marker(m, "TLM tile-part length marker"))
    } else if m == MARKER_PLM {
        Err(unsupported_marker(m, "PLM packet-length marker"))
    } else if m == MARKER_PLT {
        Err(unsupported_marker(m, "PLT packet-length marker"))
    } else if m == MARKER_QCC {
        Err(unsupported_marker(m, "QCC component quantization override"))
    } else if m == MARKER_RGN {
        Err(unsupported_marker(m, "RGN region-of-interest marker"))
    } else if m == MARKER_POC {
        Err(unsupported_marker(m, "POC progression-order change marker"))
    } else if m == MARKER_PPM {
        Err(unsupported_marker(m, "PPM packed packet headers"))
    } else if m == MARKER_PPT {
        Err(unsupported_marker(m, "PPT packed packet headers"))
    } else if m == MARKER_CRG {
        Err(unsupported_marker(m, "CRG component registration marker"))
    } else {
        Err(unknown_marker(m, " in main header"))
    }
}

/// Refuses the markers that a tile-part header may not hold.
pub fn reject_unsupported_tile_marker(m: u16) -> (r: Result<()>)
    ensures
        r is Ok <==> tile_marker_issue(m) is None,
        r matches Err(e) ==> e is UnsupportedFeature && Some(e.spec_message()) == tile_marker_issue(m),
{
    if m == MARKER_COM {
        Ok(())
    } else if m == MARKER_COD {
        Err(unsupported_marker(m, "tile-part COD coding-style override"))
    } else if m == MARKER_COC {
        Err(unsupported_marker(m, "tile-part COC component coding-style override"))
    } else if m == MARKER_QCD {
        Err(unsupported_marker(m, "tile-part QCD quantization override"))
    } else if m == MARKER_QCC {
        Err(unsupported_marker(m, "tile-part QCC component quantization override"))
    } else if m == MARKER_RGN {
        Err(unsupported_marker(m, "tile-part RGN region-of-interest marker"))
    } else if m == MARKER_POC {
        Err(unsupported_marker(m, "tile-part POC progression-order change marker"))
    } else if m == MARKER_PLT {
        Err(unsupported_marker(m, "tile-part PLT packet-length marker"))
    } else if m == MARKER_PPT {
        Err(unsupported_marker(m, "tile-part PPT packed packet headers"))
    } else {
        Err(unknown_marker(m, " in tile-part header"))
    }
}

// ----------------------------------------------------------------------------
// Scanning the header segments
// ----------------------------------------------------------------------------

/// What the segments seen so far have given.
pub struct HeaderScan {
    pub siz: Option<SizView>,
    pub cod: Option<CodView>,
    pub qcd: Option<QcdView>,
    pub comments: nat,
}

/// The state of a scan over header segments.
pub enum ScanState {
    Going(HeaderScan),
    /// A marker outside the supported feature set, with the message that names it.
    Refused(Seq<char>),
    /// A segment that does not parse; the message where it is stated.
    Malformed(Option<Seq<char>>),
}

/// One main-header segment applied to the scan.
pub open spec fn main_step(st: ScanState, seg: Seq<u8>) -> ScanState {
    match st {
        ScanState::Going(h) => {
            if seg.len() < 4 {
                ScanState::Malformed(None)
            } else {
                let m = be16(seg, 0) as u16;
                let b = seg_body(seg);
                match main_marker_issue(m) {
                    Some(msg) => ScanState::Refused(msg),
                    None => if m == MARKER_SIZ {
                        if seg_framed(seg) && siz_body_ok(b) {
                            ScanState::Going(HeaderScan { siz: Some(siz_view(b)), ..h })
                        } else { ScanState::Malformed(None) }
                    } else if m == MARKER_COD {
                        if seg_framed(seg) && cod_body_ok(b) {
                            ScanState::Going(HeaderScan { cod: Some(cod_view(b)), ..h })
                        } else { ScanState::Malformed(Some(cod_segment_refusal(seg))) }
                    } else if m == MARKER_QCD {
                        if seg_framed(seg) && qcd_body_ok(b) {
                            ScanState::Going(HeaderScan { qcd: Some(qcd_view(b)), ..h })
                        } else { ScanState::Malformed(None) }
                    } else {
                        ScanState::Going(HeaderScan { comments: h.comments + 1, ..h })
                    },
                }
            }
        },
        _ => st,
    }
}

/// One tile-part-header segment applied to the scan.
pub open spec fn tile_step(st: ScanState, seg: Seq<u8>) -> ScanState {
    match st {
        ScanState::Going(h) => {
            if seg.len() < 4 {
                ScanState::Malformed(None)
            } else {
                match tile_marker_issue(be16(seg, 0) as u16) {
                    Some(msg) => ScanState::Refused(msg),
                    None => ScanState::Going(HeaderScan { comments: h.comments + 1, ..h }),
                }
            }
        },
        _ => st,
    }
}

/// The scan over the first `n` main-header segments.
pub open spec fn main_scan(segs: Seq<Seq<u8>>, n: nat) -> ScanState
    decreases n,
{
    if n == 0 {
        ScanState::Going(HeaderScan { siz: None, cod: None, qcd: None, comments: 0 })
    } else {
        main_step(main_scan(segs, (n - 1) as nat), segs[n - 1])
    }
}

/// The scan over the first `n` tile-part-header segments, from `start`.
pub open spec fn tile_scan(start: ScanState, segs: Seq<Seq<u8>>, n: nat) -> ScanState
    decreases n,
{
    if n == 0 {
        start
    } else {
        tile_step(tile_scan(start, segs, (n - 1) as nat), segs[n - 1])
    }
}

/// What assembling a header from its segments gives.
pub enum HeaderOutcome {
    Built(HeaderScan),
    /// Refused as an unsupported feature, with this message.
    Unsupported(Seq<char>),
    /// Refused as undecodable; the message where it is stated.
    Failed(Option<Seq<char>>),
}

/// The outcome of assembling the header of a codestream with `count` tile-parts.
pub open spec fn header_outcome(
    main: Seq<Seq<u8>>,
    tile: Seq<Seq<u8>>,
    t: TilePartHeader,
    count: nat,
) -> HeaderOutcome {
    if count != 1 {
        HeaderOutcome::Failed(Some(
            "unsupported tiling: decoder currently supports one full-image tile in one tile-part"@,
        ))
    } else {
        match tile_scan(main_scan(main, main.len()), tile, tile.len()) {
            ScanState::Refused(m) => HeaderOutcome::Unsupported(m),
            ScanState::Malformed(om) => HeaderOutcome::Failed(om),
            ScanState::Going(h) => {
                if h.siz is None {
                    HeaderOutcome::Failed(Some("codestream main header lacks SIZ"@))
                } else if h.cod is None {
                    HeaderOutcome::Failed(Some("codestream main header lacks COD"@))
                } else if h.qcd is None {
                    HeaderOutcome::Failed(Some("codestream main header lacks QCD"@))
                } else {
                    match scope_issue(t, h.siz.unwrap(), h.cod.unwrap(), h.qcd.unwrap()) {
                        Some(m) => HeaderOutcome::Failed(Some(m)),
                        None => HeaderOutcome::Built(h),
                    }
                }
            },
        }
    }
}

/// `r` is what `o` says assembling the header returns.
pub open spec fn header_result_agrees(r: Result<CodestreamHeader>, o: HeaderOutcome) -> bool {
    match o {
        HeaderOutcome::Built(h) => r matches Ok(x) && h.siz == Some(x.siz@) && h.cod == Some(x.cod@)
            && h.qcd == Some(x.qcd@) && h.comments == x.comment_count,
        HeaderOutcome::Unsupported(m) => r matches Err(e) && e is UnsupportedFeature && e.spec_message() == m,
        HeaderOutcome::Failed(om) => r matches Err(e) && e is DecodeFailed
            && (om matches Some(m) ==> e.spec_message() == m),
    }
}

/// The byte contents of each segment.
pub open spec fn segment_views(v: Seq<&[u8]>) -> Seq<Seq<u8>> {
    Seq::new(v.len(), |i: int| v[i]@)
}

pub open spec fn opt_siz(o: Option<SizSegment>) -> Option<SizView> {
    match o { Some(x) => Some(x@), None => None }
}

pub open spec fn opt_cod(o: Option<CodSegment>) -> Option<CodView> {
    match o { Some(x) => Some(x@), None => None }
}

pub open spec fn opt_qcd(o: Option<QcdSegment>) -> Option<QcdView> {
    match o { Some(x) => Some(x@), None => None }
}

proof fn lemma_tile_scan_stops(start: ScanState, segs: Seq<Seq<u8>>, k: nat, n: nat)
    requires
        k <= n,
        !(tile_scan(start, segs, k) is Going),
    ensures
        tile_scan(start, segs, n) == tile_scan(start, segs, k),
    decreases n - k,
{
    if n > k {
        lemma_tile_scan_stops(start, segs, k, (n - 1) as nat);
    }
}

proof fn lemma_main_scan_stops(segs: Seq<Seq<u8>>, k: nat, n: nat)
    requires
        k <= n,
        !(main_scan(segs, k) is Going),
    ensures
        main_scan(segs, n) == main_scan(segs, k),
    decreases n - k,
{
    if n > k {
        lemma_main_scan_stops(segs, k, (n - 1) as nat);
    }
}

proof fn lemma_main_stops(mains: Seq<Seq<u8>>, tiles: Seq<Seq<u8>>, k: nat)
    requires
        k <= mains.len(),
        !(main_scan(mains, k) is Going),
    ensures
        tile_scan(main_scan(mains, mains.len()), tiles, tiles.len()) == main_scan(mains, k),
{
    lemma_main_scan_stops(mains, k, mains.len());
    assert(tile_scan(main_scan(mains, mains.len()), tiles, 0) == main_scan(mains, k));
    lemma_tile_scan_stops(main_scan(mains, mains.len()), tiles, 0, tiles.len());
}

impl CodestreamHeader {
    /// Assembles the header from main-header segments alone.
    pub fn from_marker_segments(
        main_header_segments: &[&[u8]],
        first_tile_header: TilePartHeader,
        tile_part_count: usize,
    ) -> (r: Result<Self>)
        ensures
            header_result_agrees(r, header_outcome(segment_views(main_header_segments@), Seq::empty(),
                first_tile_header, tile_part_count as nat)),
    {
        let none: Vec<&[u8]> = Vec::new();
        let empty = none.as_slice();
        assert(empty@.len() == 0);
        let _n = main_header_segments.len();
        let r = Self::from_marker_segments_with_tile_headers(
            main_header_segments, empty, first_tile_header, tile_part_count);
        assert(segment_views(empty@) =~= Seq::<Seq<u8>>::empty());
        r
    }

    /// Assembles the header from the main-header and first tile-part-header segments, and checks
    /// that it stays inside the decoder's scope.
    pub fn from_marker_segments_with_tile_headers(
        main_header_segments: &[&[u8]],
        tile_header_segments: &[&[u8]],
        first_tile_header: TilePartHeader,
        tile_part_count: usize,
    ) -> (r: Result<Self>)
        requires
            main_header_segments@.len() + tile_header_segments@.len() <= usize::MAX,
        ensures
            header_result_agrees(r, header_outcome(segment_views(main_header_segments@),
                segment_views(tile_header_segments@), first_tile_header, tile_part_count as nat)),
    {
        if tile_part_count != 1 {
            return Err(decode_failed(
                "unsupported tiling: decoder currently supports one full-image tile in one tile-part",
            ));
        }
        let ghost mains = segment_views(main_header_segments@);
        let ghost tiles = segment_views(tile_header_segments@);
        let mut siz: Option<SizSegment> = None;
        let mut cod: Option<CodSegment> = None;
        let mut qcd: Option<QcdSegment> = None;
        let mut comment_count: usize = 0;
        let mut i: usize = 0;
        while i < main_header_segments.len()
            invariant
                mains == segment_views(main_header_segments@),
                tiles == segment_views(tile_header_segments@),
                tile_part_count == 1,
                i <= main_header_segments@.len(),
                comment_count <= i,
                main_scan(mains, i as nat) == ScanState::Going(HeaderScan {
                    siz: opt_siz(siz), cod: opt_cod(cod), qcd: opt_qcd(qcd), comments: comment_count as nat,
                }),
            decreases main_header_segments@.len() - i,
        {
            let segment = main_header_segments[i];
            assert(mains[i as int] == segment@);
            let ghost before = main_scan(mains, i as nat);
            let m = match marker(segment) {
                Ok(m) => m,
                Err(e) => {
                    proof { lemma_main_stops(mains, tiles, (i + 1) as nat); }
                    return Err(e);
                },
            };
            match reject_unsupported_main_marker(m) {
                Ok(()) => {},
                Err(e) => {
                    proof { lemma_main_stops(mains, tiles, (i + 1) as nat); }
                    return Err(e);
                },
            }
            if m == MARKER_SIZ {
                match parse_siz(segment) {
                    Ok(s) => { siz = Some(s); },
                    Err(e) => {
                        proof { lemma_main_stops(mains, tiles, (i + 1) as nat); }
                        return Err(e);
                    },
                }
            } else if m == MARKER_COD {
                match parse_cod(segment) {
                    Ok(c) => { cod = Some(c); },
                    Err(e) => {
                        proof { lemma_main_stops(mains, tiles, (i + 1) as nat); }
                        return Err(e);
                    },
                }
            } else if m == MARKER_QCD {
                match parse_qcd(segment) {
                    Ok(q) => { qcd = Some(q); },
                    Err(e) => {
                        proof { lemma_main_stops(mains, tiles, (i + 1) as nat); }
                        return Err(e);
                    },
                }
            } else {
                comment_count = comment_count + 1;
            }
            i += 1;
        }
        let mut j: usize = 0;
        while j < tile_header_segments.len()
            invariant
                mains == segment_views(main_header_segments@),
                tiles == segment_views(tile_header_segments@),
                tile_part_count == 1,
                main_header_segments@.len() + tile_header_segments@.len() <= usize::MAX,
                j <= tile_header_segments@.len(),
                comment_count <= main_header_segments@.len() + j,
                tile_scan(main_scan(mains, mains.len()), tiles, j as nat) == ScanState::Going(HeaderScan {
                    siz: opt_siz(siz), cod: opt_cod(cod), qcd: opt_qcd(qcd), comments: comment_count as nat,
                }),
            decreases tile_header_segments@.len() - j,
        {
            let segment = tile_header_segments[j];
            assert(tiles[j as int] == segment@);
            let m = match marker(segment) {
                Ok(m) => m,
                Err(e) => {
                    proof { lemma_tile_scan_stops(main_scan(mains, mains.len()), tiles, (j + 1) as nat, tiles.len()); }
                    return Err(e);
                },
            };
            match reject_unsupported_tile_marker(m) {
                Ok(()) => {},
                Err(e) => {
                    proof { lemma_tile_scan_stops(main_scan(mains, mains.len()), tiles, (j + 1) as nat, tiles.len()); }
                    return Err(e);
                },
            }
            comment_count = comment_count + 1;
            j += 1;
        }
        let siz = match siz {
            Some(s) => s,
            None => { return Err(decode_failed("codestream main header lacks SIZ")); },
        };
        let cod = match cod {
            Some(c) => c,
            None => { return Err(decode_failed("codestream main header lacks COD")); },
        };
        let qcd = match qcd {
            Some(q) => q,
            None => { return Err(decode_failed("codestream main header lacks QCD")); },
        };
        validate_decoder_scope(first_tile_header, &siz, &cod, &qcd)?;
        Ok(CodestreamHeader { siz, cod, qcd, comment_count })
    }
}

} // verus!

//! JP2 box parsing for the decoder: the signature, the file type, the JP2 header with `ihdr` and an
//! enumerated `colr`, and the first contiguous codestream box (Annex I).
use vstd::prelude::*;
use crate::bytes::{be16, be32, be64, read_u16_at, read_u32_at, read_u64_at};
use crate::error::{Jp2LamError, Result, decode_failed, unsupported};
use crate::model::ColorSpace;
use crate::text::{append_decimal, decimal};

verus! {

pub const BOX_SIGNATURE: u32 = 0x6a50_2020;
pub const BOX_FILE_TYPE: u32 = 0x6674_7970;
pub const BOX_JP2_HEADER: u32 = 0x6a70_3268;
pub const BOX_IMAGE_HEADER: u32 = 0x6968_6472;
pub const BOX_BITS_PER_COMPONENT: u32 = 0x6270_6363;
pub const BOX_COLOR_SPEC: u32 = 0x636f_6c72;
pub const BOX_PALETTE: u32 = 0x7063_6c72;
pub const BOX_COMPONENT_MAPPING: u32 = 0x636d_6170;
pub const BOX_CHANNEL_DEFINITION: u32 = 0x6364_6566;
pub const BOX_CODESTREAM: u32 = 0x6a70_3263;
/// The `jp2 ` brand.
pub const BRAND_JP2: u32 = 0x6a70_3220;
pub const JP2_COMPRESSION_TYPE_J2K: u8 = 7;
pub const ENUM_SRGB: u32 = 16;
pub const ENUM_GRAY: u32 = 17;

/// The image header fields of a JP2 file.
#[derive(Debug, Clone, Copy, PartialEq, Eq, Structural)]
pub struct Jp2Header {
    pub width: u32,
    pub height: u32,
    pub component_count: u16,
    pub bits_per_component: u8,
    pub colorspace: ColorSpace,
    pub has_ipr_metadata: bool,
}

/// A parsed JP2 file: its header and its codestream.
#[derive(Debug, Clone)]
pub struct ParsedJp2<'a> {
    pub header: Jp2Header,
    pub codestream: &'a [u8],
}

/// The outcome of parsing.
pub enum Parse<T> {
    Done(T),
    /// Refused as an unsupported feature, with this message.
    Unsupported(Seq<char>),
    /// Refused as undecodable; the message where it is stated.
    Failed(Option<Seq<char>>),
}

/// `r` is what `p` says parsing returns, with `f` relating a value to its meaning.
pub open spec fn err_agrees<T>(r: Result<T>, p: Parse<T>) -> bool {
    match p {
        Parse::Done(_) => r is Ok,
        Parse::Unsupported(m) => r matches Err(e) && e is UnsupportedFeature && e.spec_message() == m,
        Parse::Failed(om) => r matches Err(e) && e is DecodeFailed && (om matches Some(m) ==> e.spec_message() == m),
    }
}

// ----------------------------------------------------------------------------
// Boxes
// ----------------------------------------------------------------------------

/// What the box starting at `pos` is.
pub enum BoxStep {
    /// `pos` is the end of the input.
    End,
    /// The box header is truncated or its length is invalid.
    Bad,
    /// A box of type `typ` whose payload is `[start, end)`.
    Found { typ: u32, start: nat, end: nat },
}

/// The box that starts at `pos` of `b` (I.4): an `LBox` of 0 runs to the end of the input, 1 is
/// followed by a 64-bit `XLBox`, 2 to 7 are invalid.
#[verifier::opaque]
pub open spec fn box_at(b: Seq<u8>, pos: nat) -> BoxStep {
    if pos == b.len() {
        BoxStep::End
    } else if pos > b.len() || b.len() - pos < 8 {
        BoxStep::Bad
    } else {
        let lbox = be32(b, pos as int);
        let typ = be32(b, pos + 4int) as u32;
        let hdr = pos + 8;
        if lbox == 0 {
            BoxStep::Found { typ, start: hdr, end: b.len() }
        } else if lbox == 1 {
            if hdr + 8 > b.len() {
                BoxStep::Bad
            } else {
                let xl = be64(b, hdr as int);
                if xl < 16 || pos + xl > usize::MAX || pos + xl > b.len() {
                    BoxStep::Bad
                } else {
                    BoxStep::Found { typ, start: hdr + 8, end: (pos + xl) as nat }
                }
            }
        } else if lbox <= 7 {
            BoxStep::Bad
        } else if pos + lbox > b.len() {
            BoxStep::Bad
        } else {
            BoxStep::Found { typ, start: hdr, end: (pos + lbox) as nat }
        }
    }
}

/// A box always ends after its header.
pub proof fn lemma_box_advances(b: Seq<u8>, pos: nat)
    ensures
        box_at(b, pos) matches BoxStep::Found { typ, start, end } ==> pos + 8 <= start <= end <= b.len(),
        pos == b.len() ==> box_at(b, pos) is End,
{
    reveal(box_at);
}

struct BoxRecord<'a> {
    box_type: u32,
    payload: &'a [u8],
}

struct BoxCursor<'a> {
    bytes: &'a [u8],
    pos: usize,
}

impl<'a> BoxCursor<'a> {
    fn new(bytes: &'a [u8]) -> (c: Self)
        ensures
            c.bytes@ == bytes@,
            c.pos == 0,
    {
        BoxCursor { bytes, pos: 0 }
    }

    fn next_box(&mut self) -> (r: Result<Option<BoxRecord<'a>>>)
        requires
            old(self).pos <= old(self).bytes@.len(),
        ensures
            final(self).bytes@ == old(self).bytes@,
            final(self).pos <= final(self).bytes@.len(),
            match box_at(old(self).bytes@, old(self).pos as nat) {
                BoxStep::End => r matches Ok(None) && final(self).pos == old(self).pos,
                BoxStep::Bad => r matches Err(e) && e is DecodeFailed,
                BoxStep::Found { typ, start, end } => r matches Ok(Some(rec)) && rec.box_type == typ
                    && rec.payload@ == old(self).bytes@.subrange(start as int, end as int)
                    && final(self).pos == end,
            },
    {
        proof { reveal(box_at); }
        let len = self.bytes.len();
        if self.pos == len {
            return Ok(None);
        }
        if len - self.pos < 8 {
            return Err(decode_failed("truncated JP2 box header"));
        }
        let start = self.pos;
        let lbox = read_u32_at(self.bytes, start).unwrap();
        let box_type = read_u32_at(self.bytes, start + 4).unwrap();
        let hdr = start + 8;
        let (pstart, end): (usize, usize) = if lbox == 0 {
            (hdr, len)
        } else if lbox == 1 {
            let xl = match read_u64_at(self.bytes, hdr) {
                Some(v) => v,
                None => { return Err(decode_failed("unexpected end of JP2 u64")); },
            };
            if xl < 16 {
                return Err(decode_failed("invalid extended JP2 box length"));
            }
            if xl > (len - start) as u64 {
                return Err(decode_failed("JP2 box extends past input"));
            }
            (hdr + 8, start + xl as usize)
        } else if lbox <= 7 {
            return Err(decode_failed("invalid JP2 box length below header size"));
        } else {
            if lbox as u64 > (len - start) as u64 {
                return Err(decode_failed("JP2 box extends past input"));
            }
            (hdr, start + lbox as usize)
        };
        if end < pstart {
            return Err(decode_failed("JP2 box extends past input"));
        }
        let payload = vstd::slice::slice_subrange(self.bytes, pstart, end);
        self.pos = end;
        Ok(Some(BoxRecord { box_type, payload }))
    }
}

// ----------------------------------------------------------------------------
// Header boxes
// ----------------------------------------------------------------------------

/// What an `ihdr` payload gives.
pub open spec fn image_header_spec(p: Seq<u8>) -> Parse<Jp2Header> {
    if p.len() != 14 {
        Parse::Failed(Some("JP2 ihdr box must be 14 bytes"@))
    } else if p[11] != JP2_COMPRESSION_TYPE_J2K {
        Parse::Failed(Some("JP2 ihdr compression type is not JPEG 2000"@))
    } else if p[10] == 0xff {
        Parse::Unsupported("unsupported JP2 feature: per-component bit depths require bpcc"@)
    } else {
        Parse::Done(Jp2Header {
            width: be32(p, 4) as u32,
            height: be32(p, 0) as u32,
            component_count: be16(p, 8) as u16,
            bits_per_component: ((p[10] % 128) + 1) as u8,
            colorspace: ColorSpace::Gray,
            has_ipr_metadata: p[13] != 0,
        })
    }
}

fn parse_image_header(payload: &[u8]) -> (r: Result<Jp2Header>)
    ensures
        err_agrees(r, image_header_spec(payload@)),
        image_header_spec(payload@) matches Parse::Done(h) ==> r == Ok::<Jp2Header, Jp2LamError>(h),
{
    if payload.len() != 14 {
        return Err(decode_failed("JP2 ihdr box must be 14 bytes"));
    }
    let height = read_u32_at(payload, 0).unwrap();
    let width = read_u32_at(payload, 4).unwrap();
    let component_count = read_u16_at(payload, 8).unwrap();
    let bpc = payload[10];
    if payload[11] != JP2_COMPRESSION_TYPE_J2K {
        return Err(decode_failed("JP2 ihdr compression type is not JPEG 2000"));
    }
    if bpc == 0xff {
        return Err(unsupported("unsupported JP2 feature: per-component bit depths require bpcc"));
    }
    Ok(Jp2Header {
        width,
        height,
        component_count,
        bits_per_component: (bpc % 128) + 1,
        colorspace: ColorSpace::Gray,
        has_ipr_metadata: payload[13] != 0,
    })
}

/// What a `colr` payload gives: only the enumerated gray and sRGB colour spaces are taken.
pub open spec fn color_spec_spec(p: Seq<u8>) -> Parse<ColorSpace> {
    if p.len() < 3 {
        Parse::Failed(Some("JP2 colr box is too short"@))
    } else if p[0] != 1 {
        Parse::Unsupported("only enumerated JP2 colorspaces are supported"@)
    } else if p.len() != 7 {
        Parse::Failed(Some("enumerated JP2 colr box must be 7 bytes"@))
    } else if be32(p, 3) == ENUM_GRAY {
        Parse::Done(ColorSpace::Gray)
    } else if be32(p, 3) == ENUM_SRGB {
        Parse::Done(ColorSpace::Srgb)
    } else {
        Parse::Unsupported("unsupported JP2 EnumCS value "@ + decimal(be32(p, 3) as nat))
    }
}

fn parse_color_spec(payload: &[u8]) -> (r: Result<ColorSpace>)
    ensures
        err_agrees(r, color_spec_spec(payload@)),
        color_spec_spec(payload@) matches Parse::Done(c) ==> r == Ok::<ColorSpace, Jp2LamError>(c),
{
    if payload.len() < 3 {
        return Err(decode_failed("JP2 colr box is too short"));
    }
    if payload[0] != 1 {
        return Err(unsupported("only enumerated JP2 colorspaces are supported"));
    }
    if payload.len() != 7 {
        return Err(decode_failed("enumerated JP2 colr box must be 7 bytes"));
    }
    let value = read_u32_at(payload, 3).unwrap();
    if value == ENUM_GRAY {
        Ok(ColorSpace::Gray)
    } else if value == ENUM_SRGB {
        Ok(ColorSpace::Srgb)
    } else {
        let mut m = String::from_str("unsupported JP2 EnumCS value ");
        append_decimal(&mut m, value as u64);
        Err(Jp2LamError::UnsupportedFeature(m))
    }
}

/// The rest of a JP2 header box from `pos`, given the `ihdr` and `colr` found so far.
pub open spec fn header_scan(p: Seq<u8>, pos: nat, ihdr: Option<Jp2Header>, colr: Option<ColorSpace>) -> Parse<Jp2Header>
    decreases p.len() - pos,
{
    match box_at(p, pos) {
        BoxStep::End => match (ihdr, colr) {
            (None, _) => Parse::Failed(Some("JP2 header lacks ihdr box"@)),
            (Some(_), None) => Parse::Failed(Some("JP2 header lacks colr box"@)),
            (Some(h), Some(c)) => Parse::Done(Jp2Header { colorspace: c, ..h }),
        },
        BoxStep::Bad => Parse::Failed(None),
        BoxStep::Found { typ, start, end } => {
            if end <= pos || end > p.len() {
                Parse::Failed(None)
            } else {
                let pl = p.subrange(start as int, end as int);
                if typ == BOX_IMAGE_HEADER {
                    match image_header_spec(pl) {
                        Parse::Done(h) => header_scan(p, end, Some(h), colr),
                        Parse::Unsupported(m) => Parse::Unsupported(m),
                        Parse::Failed(m) => Parse::Failed(m),
                    }
                } else if typ == BOX_BITS_PER_COMPONENT {
                    Parse::Unsupported("unsupported JP2 feature: per-component bit-depth box (bpcc)"@)
                } else if typ == BOX_COLOR_SPEC && colr is None {
                    match color_spec_spec(pl) {
                        Parse::Done(c) => header_scan(p, end, ihdr, Some(c)),
                        Parse::Unsupported(m) => Parse::Unsupported(m),
                        Parse::Failed(m) => Parse::Failed(m),
                    }
                } else if typ == BOX_PALETTE {
                    Parse::Unsupported("unsupported JP2 feature: palette box (pclr)"@)
                } else if typ == BOX_COMPONENT_MAPPING {
                    Parse::Unsupported("unsupported JP2 feature: component mapping box (cmap)"@)
                } else if typ == BOX_CHANNEL_DEFINITION {
                    Parse::Unsupported("unsupported JP2 feature: channel definition box (cdef)"@)
                } else {
                    header_scan(p, end, ihdr, colr)
                }
            }
        },
    }
}

fn parse_jp2_header(payload: &[u8]) -> (r: Result<Jp2Header>)
    ensures
        err_agrees(r, header_scan(payload@, 0, None, None)),
        header_scan(payload@, 0, None, None) matches Parse::Done(h) ==> r == Ok::<Jp2Header, Jp2LamError>(h),
{
    let mut cursor = BoxCursor::new(payload);
    let mut image_header: Option<Jp2Header> = None;
    let mut colorspace: Option<ColorSpace> = None;
    loop
        invariant
            cursor.bytes@ == payload@,
            cursor.pos <= payload@.len(),
            header_scan(payload@, cursor.pos as nat, image_header, colorspace) == header_scan(payload@, 0, None, None),
        ensures
            box_at(payload@, cursor.pos as nat) is End,
            header_scan(payload@, cursor.pos as nat, image_header, colorspace) == header_scan(payload@, 0, None, None),
        decreases payload@.len() - cursor.pos,
    {
        let ghost pos0 = cursor.pos as nat;
        proof { lemma_box_advances(payload@, pos0); }
        let rec = match cursor.next_box() {
            Ok(Some(rec)) => rec,
            Ok(None) => { break; },
            Err(e) => { return Err(e); },
        };
        let t = rec.box_type;
        if t == BOX_IMAGE_HEADER {
            let h = parse_image_header(rec.payload)?;
            image_header = Some(h);
        } else if t == BOX_BITS_PER_COMPONENT {
            return Err(unsupported("unsupported JP2 feature: per-component bit-depth box (bpcc)"));
        } else if t == BOX_COLOR_SPEC && colorspace.is_none() {
            let c = parse_color_spec(rec.payload)?;
            colorspace = Some(c);
        } else if t == BOX_PALETTE {
            return Err(unsupported("unsupported JP2 feature: palette box (pclr)"));
        } else if t == BOX_COMPONENT_MAPPING {
            return Err(unsupported("unsupported JP2 feature: component mapping box (cmap)"));
        } else if t == BOX_CHANNEL_DEFINITION {
            return Err(unsupported("unsupported JP2 feature: channel definition box (cdef)"));
        }
    }
    let header = match image_header {
        Some(h) => h,
        None => { return Err(decode_failed("JP2 header lacks ihdr box")); },
    };
    let colorspace = match colorspace {
        Some(c) => c,
        None => { return Err(decode_failed("JP2 header lacks colr box")); },
    };
    Ok(Jp2Header { colorspace, ..header })
}

// ----------------------------------------------------------------------------
// The file
// ----------------------------------------------------------------------------

/// The file-type payload has brand `jp2 ` and lists `jp2 ` among its compatible brands.
pub open spec fn file_type_ok(p: Seq<u8>) -> bool {
    &&& p.len() >= 12
    &&& be32(p, 0) == BRAND_JP2
    &&& exists|k: int| 0 <= k && 8 + 4 * k + 4 <= p.len() && #[trigger] be32(p, 8 + 4 * k) == BRAND_JP2
}

fn validate_file_type(payload: &[u8]) -> (r: Result<()>)
    ensures
        r is Ok <==> file_type_ok(payload@),
        r matches Err(e) ==> e is DecodeFailed,
{
    if payload.len() < 12 {
        return Err(decode_failed("JP2 file type box is too short"));
    }
    if read_u32_at(payload, 0).unwrap() != BRAND_JP2 {
        return Err(decode_failed("JP2 brand is not jp2"));
    }
    let n = payload.len();
    let count = (n - 8) / 4;
    let mut k: usize = 0;
    while k < count
        invariant
            n == payload@.len(),
            count == (n - 8) / 4,
            payload@.len() >= 12,
            be32(payload@, 0) == BRAND_JP2,
            k <= count,
            forall|j: int| 0 <= j < k ==> #[trigger] be32(payload@, 8 + 4 * j) != BRAND_JP2,
        decreases count - k,
    {
        if read_u32_at(payload, 8 + 4 * k).unwrap() == BRAND_JP2 {
            assert(8 + 4 * (k as int) + 4 <= payload@.len()) by (nonlinear_arith)
                requires k < count, count == (n - 8) / 4, n == payload@.len(), n >= 12;
            assert(be32(payload@, 8 + 4 * (k as int)) == BRAND_JP2);
            return Ok(());
        }
        k += 1;
    }
    proof {
        assert forall|j: int| 0 <= j && 8 + 4 * j + 4 <= payload@.len() implies #[trigger] be32(payload@, 8 + 4 * j) != BRAND_JP2 by {
            assert(j < count);
        }
    }
    Err(decode_failed("JP2 file type lacks jp2 compatibility brand"))
}

/// The boxes after the file type box, from `pos`, with the header and codestream found so far.
pub open spec fn top_scan(b: Seq<u8>, pos: nat, hdr: Option<Jp2Header>, cs: Option<(nat, nat)>) -> Parse<(Jp2Header, nat, nat)>
    decreases b.len() - pos,
{
    match box_at(b, pos) {
        BoxStep::End => match (hdr, cs) {
            (None, _) => Parse::Failed(Some("missing JP2 header box"@)),
            (Some(_), None) => Parse::Failed(Some("missing contiguous codestream box"@)),
            (Some(h), Some((s, e))) => Parse::Done((h, s, e)),
        },
        BoxStep::Bad => Parse::Failed(None),
        BoxStep::Found { typ, start, end } => {
            if end <= pos || end > b.len() {
                Parse::Failed(None)
            } else if typ == BOX_JP2_HEADER {
                match header_scan(b.subrange(start as int, end as int), 0, None, None) {
                    Parse::Done(h) => top_scan(b, end, Some(h), cs),
                    Parse::Unsupported(m) => Parse::Unsupported(m),
                    Parse::Failed(m) => Parse::Failed(m),
                }
            } else if typ == BOX_CODESTREAM {
                if cs is None {
                    top_scan(b, end, hdr, Some((start, end)))
                } else {
                    Parse::Failed(Some("unsupported JP2 layout: multiple contiguous codestream boxes"@))
                }
            } else {
                top_scan(b, end, hdr, cs)
            }
        },
    }
}

/// What parsing JP2 file `b` gives: its header and the payload range of its first codestream box.
pub open spec fn jp2_spec(b: Seq<u8>) -> Parse<(Jp2Header, nat, nat)> {
    match box_at(b, 0) {
        BoxStep::End => Parse::Failed(Some("missing JP2 signature box"@)),
        BoxStep::Bad => Parse::Failed(None),
        BoxStep::Found { typ, start, end } => {
            if typ != BOX_SIGNATURE || b.subrange(start as int, end as int) != seq![0x0du8, 0x0a, 0x87, 0x0a] {
                Parse::Failed(Some("invalid JP2 signature box"@))
            } else {
                match box_at(b, end) {
                    BoxStep::End => Parse::Failed(Some("missing JP2 file type box"@)),
                    BoxStep::Bad => Parse::Failed(None),
                    BoxStep::Found { typ: t2, start: s2, end: e2 } => {
                        if t2 != BOX_FILE_TYPE {
                            Parse::Failed(Some("JP2 file type box must follow signature box"@))
                        } else if !file_type_ok(b.subrange(s2 as int, e2 as int)) {
                            Parse::Failed(None)
                        } else {
                            top_scan(b, e2, None, None)
                        }
                    },
                }
            }
        },
    }
}

/// `r` is what parsing `b` gives.
pub open spec fn jp2_result_agrees(r: Result<ParsedJp2>, b: Seq<u8>) -> bool {
    match jp2_spec(b) {
        Parse::Done((h, s, e)) => r matches Ok(p) && p.header == h && p.codestream@ == b.subrange(s as int, e as int),
        Parse::Unsupported(m) => r matches Err(x) && x is UnsupportedFeature && x.spec_message() == m,
        Parse::Failed(om) => r matches Err(x) && x is DecodeFailed && (om matches Some(m) ==> x.spec_message() == m),
    }
}

#[verifier::rlimit(40)]
fn scan_top_boxes<'a>(bytes: &'a [u8], cursor: &mut BoxCursor<'a>) -> (r: Result<ParsedJp2<'a>>)
    requires
        old(cursor).bytes@ == bytes@,
        old(cursor).pos <= bytes@.len(),
    ensures
        match top_scan(bytes@, old(cursor).pos as nat, None, None) {
            Parse::Done((h, s, e)) => r matches Ok(p) && p.header == h && p.codestream@ == bytes@.subrange(s as int, e as int),
            Parse::Unsupported(m) => r matches Err(x) && x is UnsupportedFeature && x.spec_message() == m,
            Parse::Failed(om) => r matches Err(x) && x is DecodeFailed && (om matches Some(m) ==> x.spec_message() == m),
        },
{
    let ghost target = top_scan(bytes@, cursor.pos as nat, None, None);
    let mut header: Option<Jp2Header> = None;
    let mut codestream: Option<&'a [u8]> = None;
    let ghost mut cs_range: Option<(nat, nat)> = None;
    loop
        invariant
            cursor.bytes@ == bytes@,
            cursor.pos <= bytes@.len(),
            top_scan(bytes@, cursor.pos as nat, header, cs_range) == target,
            target == top_scan(bytes@, old(cursor).pos as nat, None, None),
            cs_range is None <==> codestream is None,
            cs_range matches Some((s, e)) ==> (s <= e <= bytes@.len() && (codestream matches Some(c)
                && c@ == bytes@.subrange(s as int, e as int))),
        ensures
            box_at(bytes@, cursor.pos as nat) is End,
            top_scan(bytes@, cursor.pos as nat, header, cs_range) == target,
            cs_range is None <==> codestream is None,
            cs_range matches Some((s, e)) ==> (s <= e <= bytes@.len() && (codestream matches Some(c)
                && c@ == bytes@.subrange(s as int, e as int))),
        decreases bytes@.len() - cursor.pos,
    {
        let ghost pos0 = cursor.pos as nat;
        proof { lemma_box_advances(bytes@, pos0); }
        let rec = match cursor.next_box() {
            Ok(Some(rec)) => rec,
            Ok(None) => { break; },
            Err(e) => { return Err(e); },
        };
        if rec.box_type == BOX_JP2_HEADER {
            let h = parse_jp2_header(rec.payload)?;
            header = Some(h);
        } else if rec.box_type == BOX_CODESTREAM {
            if codestream.is_none() {
                proof {
                    if let BoxStep::Found { typ, start, end } = box_at(bytes@, pos0) {
                        cs_range = Some((start, end));
                    }
                }
                codestream = Some(rec.payload);
            } else {
                return Err(decode_failed("unsupported JP2 layout: multiple contiguous codestream boxes"));
            }
        }
    }
    let header = match header {
        Some(h) => h,
        None => { return Err(decode_failed("missing JP2 header box")); },
    };
    let codestream = match codestream {
        Some(c) => c,
        None => { return Err(decode_failed("missing contiguous codestream box")); },
    };
    Ok(ParsedJp2 { header, codestream })
}

fn is_signature(rec: &BoxRecord) -> (b: bool)
    ensures
        b == (rec.box_type == BOX_SIGNATURE && rec.payload@ == seq![0x0du8, 0x0a, 0x87, 0x0a]),
{
    let ok = rec.box_type == BOX_SIGNATURE && rec.payload.len() == 4 && rec.payload[0] == 0x0d
        && rec.payload[1] == 0x0a && rec.payload[2] == 0x87 && rec.payload[3] == 0x0a;
    proof {
        if ok {
            assert(rec.payload@ =~= seq![0x0du8, 0x0a, 0x87, 0x0a]);
        } else if rec.box_type == BOX_SIGNATURE && rec.payload@ == seq![0x0du8, 0x0a, 0x87, 0x0a] {
            assert(rec.payload@[0] == 0x0d);
        }
    }
    ok
}

/// Parses a JP2 file down to its header and its first contiguous codestream.
pub fn parse_jp2<'a>(bytes: &'a [u8]) -> (r: Result<ParsedJp2<'a>>)
    ensures
        jp2_result_agrees(r, bytes@),
{
    let mut cursor = BoxCursor::new(bytes);
    proof { lemma_box_advances(bytes@, 0); }
    let signature = match cursor.next_box()? {
        Some(b) => b,
        None => { return Err(decode_failed("missing JP2 signature box")); },
    };
    if !is_signature(&signature) {
        return Err(decode_failed("invalid JP2 signature box"));
    }
    let ghost after_sig = cursor.pos as nat;
    proof { lemma_box_advances(bytes@, after_sig); }
    let file_type = match cursor.next_box()? {
        Some(b) => b,
        None => { return Err(decode_failed("missing JP2 file type box")); },
    };
    if file_type.box_type != BOX_FILE_TYPE {
        return Err(decode_failed("JP2 file type box must follow signature box"));
    }
    validate_file_type(file_type.payload)?;
    scan_top_boxes(bytes, &mut cursor)
}

} // verus!

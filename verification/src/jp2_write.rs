//! Wrapping a codestream in the JP2 file format (Annex I): signature, file type, the JP2 header
//! with its image header and enumerated colour specification, and the codestream box.
use vstd::prelude::*;
use crate::bytes::{be16, be32, lemma_u16_be_roundtrip, lemma_u32_be_roundtrip, push_all, push_u16, push_u32, u16_be, u32_be};
use crate::error::{Result, encode_failed};
use crate::jp2_parse::{BoxStep, Jp2Header, Parse, box_at, color_spec_spec, file_type_ok, header_scan, image_header_spec, top_scan};
use crate::jp2_parse::{BOX_CODESTREAM, BOX_COLOR_SPEC, BOX_FILE_TYPE, BOX_IMAGE_HEADER, BOX_JP2_HEADER, BOX_SIGNATURE, BRAND_JP2, ENUM_GRAY, ENUM_SRGB, JP2_COMPRESSION_TYPE_J2K};
use crate::model::{ColorSpace, Image};

verus! {

/// The enumerated colour space that the `colr` box names for an image.
pub open spec fn enumcs_spec(c: ColorSpace) -> u32 {
    if c.spec_encoding_domain() == ColorSpace::Gray { ENUM_GRAY } else { ENUM_SRGB }
}

/// The JP2 file around a codestream.
pub open spec fn jp2_spec(image: Image, codestream: Seq<u8>) -> Seq<u8> {
    u32_be(12) + u32_be(BOX_SIGNATURE) + seq![0x0du8, 0x0a, 0x87, 0x0a]
        + u32_be(20) + u32_be(BOX_FILE_TYPE) + u32_be(BRAND_JP2) + u32_be(0) + u32_be(BRAND_JP2)
        + u32_be(45) + u32_be(BOX_JP2_HEADER)
        + u32_be(22) + u32_be(BOX_IMAGE_HEADER) + u32_be(image.height) + u32_be(image.width)
        + u16_be(image.components@.len() as u16) + seq![7u8, JP2_COMPRESSION_TYPE_J2K, 0u8, 0u8]
        + u32_be(15) + u32_be(BOX_COLOR_SPEC) + seq![1u8, 0u8, 0u8] + u32_be(enumcs_spec(image.colorspace))
        + u32_be((codestream.len() + 8) as u32) + u32_be(BOX_CODESTREAM) + codestream
}

/// Wraps a codestream in a JP2 file describing `image`: 8-bit components, and the grayscale or
/// sRGB enumerated colour space.
#[verifier::rlimit(40)]
pub fn wrap_codestream(image: &Image, codestream: &[u8]) -> (r: Result<Vec<u8>>)
    ensures
        r is Ok <==> codestream@.len() + 8 <= u32::MAX,
        r matches Ok(v) ==> v@ == jp2_spec(*image, codestream@),
        r matches Err(e) ==> e is EncodeFailed,
{
    if codestream.len() > 0xffff_fff7 {
        return Err(encode_failed("JP2 box length exceeds 32-bit limit"));
    }
    let box_len = (codestream.len() + 8) as u32;
    let enumcs = if image.colorspace.encoding_domain() == ColorSpace::Gray { ENUM_GRAY } else { ENUM_SRGB };
    let mut out: Vec<u8> = Vec::new();
    push_u32(&mut out, 12);
    push_u32(&mut out, BOX_SIGNATURE);
    out.push(0x0d);
    out.push(0x0a);
    out.push(0x87);
    out.push(0x0a);
    push_u32(&mut out, 20);
    push_u32(&mut out, BOX_FILE_TYPE);
    push_u32(&mut out, BRAND_JP2);
    push_u32(&mut out, 0);
    push_u32(&mut out, BRAND_JP2);
    push_u32(&mut out, 45);
    push_u32(&mut out, BOX_JP2_HEADER);
    push_u32(&mut out, 22);
    push_u32(&mut out, BOX_IMAGE_HEADER);
    push_u32(&mut out, image.height);
    push_u32(&mut out, image.width);
    push_u16(&mut out, image.components.len() as u16);
    out.push(7);
    out.push(JP2_COMPRESSION_TYPE_J2K);
    out.push(0);
    out.push(0);
    push_u32(&mut out, 15);
    push_u32(&mut out, BOX_COLOR_SPEC);
    out.push(1);
    out.push(0);
    out.push(0);
    push_u32(&mut out, enumcs);
    push_u32(&mut out, box_len);
    push_u32(&mut out, BOX_CODESTREAM);
    push_all(&mut out, codestream);
    assert(out@ =~= jp2_spec(*image, codestream@));
    Ok(out)
}

/// The header that the decoder reads from a file that `wrap_codestream` wrote for `image`.
pub open spec fn wrapped_header(image: Image) -> Jp2Header {
    Jp2Header {
        width: image.width,
        height: image.height,
        component_count: image.components@.len() as u16,
        bits_per_component: 8,
        colorspace: if image.colorspace.spec_encoding_domain() == ColorSpace::Gray { ColorSpace::Gray } else { ColorSpace::Srgb },
        has_ipr_metadata: false,
    }
}

/// A box whose eight header bytes at `pos` give length `l` and type `t` spans `[pos, pos + l)`.
proof fn lemma_box_header(b: Seq<u8>, pos: nat, l: u32, t: u32)
    requires
        8 <= l,
        pos + l <= b.len(),
        b.subrange(pos as int, pos + 8int) == u32_be(l) + u32_be(t),
    ensures
        box_at(b, pos) == (BoxStep::Found { typ: t, start: pos + 8, end: (pos + l) as nat }),
{
    reveal(box_at);
    let h = b.subrange(pos as int, pos + 8int);
    lemma_u32_be_roundtrip(l);
    lemma_u32_be_roundtrip(t);
    assert(h.subrange(0, 4) =~= u32_be(l));
    assert(h.subrange(4, 8) =~= u32_be(t));
    assert(be32(b, pos as int) == be32(h, 0));
    assert(be32(b, pos + 4int) == be32(h, 4));
    assert(be32(h, 4) == be32(u32_be(t), 0));
}

/// The `ihdr` box that `wrap_codestream` writes for `image`.
pub open spec fn ihdr_box(image: Image) -> Seq<u8> {
    u32_be(22) + u32_be(BOX_IMAGE_HEADER) + u32_be(image.height) + u32_be(image.width)
        + u16_be(image.components@.len() as u16) + seq![7u8, JP2_COMPRESSION_TYPE_J2K, 0u8, 0u8]
}

/// The `colr` box that `wrap_codestream` writes for `image`.
pub open spec fn colr_box(image: Image) -> Seq<u8> {
    u32_be(15) + u32_be(BOX_COLOR_SPEC) + seq![1u8, 0u8, 0u8] + u32_be(enumcs_spec(image.colorspace))
}

proof fn lemma_image_header_reads_back(image: Image)
    ensures
        image_header_spec(ihdr_box(image).subrange(8, 22)) == Parse::Done(Jp2Header {
            colorspace: ColorSpace::Gray,
            ..wrapped_header(image)
        }),
{
    let count = image.components@.len() as u16;
    let ih = ihdr_box(image).subrange(8, 22);
    assert(ih =~= u32_be(image.height) + u32_be(image.width) + u16_be(count) + seq![7u8, JP2_COMPRESSION_TYPE_J2K, 0u8, 0u8]);
    lemma_u32_be_roundtrip(image.height);
    lemma_u32_be_roundtrip(image.width);
    lemma_u16_be_roundtrip(count);
    assert(ih.subrange(0, 4) =~= u32_be(image.height));
    assert(ih.subrange(4, 8) =~= u32_be(image.width));
    assert(ih.subrange(8, 10) =~= u16_be(count));
    assert(be32(ih, 0) == be32(ih.subrange(0, 4), 0));
    assert(be32(ih, 4) == be32(ih.subrange(4, 8), 0));
    assert(be16(ih, 8) == be16(ih.subrange(8, 10), 0));
}

proof fn lemma_color_spec_reads_back(image: Image)
    ensures
        color_spec_spec(colr_box(image).subrange(8, 15)) == Parse::Done(wrapped_header(image).colorspace),
{
    let e = enumcs_spec(image.colorspace);
    let cp = colr_box(image).subrange(8, 15);
    assert(cp =~= seq![1u8, 0u8, 0u8] + u32_be(e));
    lemma_u32_be_roundtrip(e);
    assert(cp.subrange(3, 7) =~= u32_be(e));
    assert(be32(cp, 3) == be32(cp.subrange(3, 7), 0));
}

proof fn lemma_jp2_header_reads_back(image: Image, p: Seq<u8>)
    requires
        p == ihdr_box(image) + colr_box(image),
    ensures
        header_scan(p, 0, None, None) == Parse::Done(wrapped_header(image)),
{
    let h = Jp2Header { colorspace: ColorSpace::Gray, ..wrapped_header(image) };
    let c = wrapped_header(image).colorspace;
    assert(p.subrange(0, 8) =~= u32_be(22) + u32_be(BOX_IMAGE_HEADER));
    lemma_box_header(p, 0, 22, BOX_IMAGE_HEADER);
    assert(p.subrange(8, 22) =~= ihdr_box(image).subrange(8, 22));
    lemma_image_header_reads_back(image);
    assert(p.subrange(22, 30) =~= u32_be(15) + u32_be(BOX_COLOR_SPEC));
    lemma_box_header(p, 22, 15, BOX_COLOR_SPEC);
    assert(p.subrange(30, 37) =~= colr_box(image).subrange(8, 15));
    lemma_color_spec_reads_back(image);
    crate::jp2_parse::lemma_box_advances(p, 37);
    assert(header_scan(p, 37, Some(h), Some(c)) == Parse::Done(wrapped_header(image)));
    assert(header_scan(p, 22, Some(h), None) == Parse::Done(wrapped_header(image)));
}

/// The boxes of the file that `wrap_codestream` writes, one after the other.
spec fn jp2_layout(image: Image, codestream: Seq<u8>) -> Seq<u8> {
    (u32_be(12) + u32_be(BOX_SIGNATURE) + seq![0x0du8, 0x0a, 0x87, 0x0a])
        + (u32_be(20) + u32_be(BOX_FILE_TYPE) + u32_be(BRAND_JP2) + u32_be(0) + u32_be(BRAND_JP2))
        + (u32_be(45) + u32_be(BOX_JP2_HEADER) + (ihdr_box(image) + colr_box(image)))
        + (u32_be((codestream.len() + 8) as u32) + u32_be(BOX_CODESTREAM))
        + codestream
}

proof fn lemma_jp2_layout(image: Image, codestream: Seq<u8>)
    ensures
        jp2_spec(image, codestream) == jp2_layout(image, codestream),
{
    assert(jp2_spec(image, codestream) =~= jp2_layout(image, codestream));
}

/// The signature and file type boxes at the front of the file, and the payload of its JP2
/// header box.
proof fn lemma_front_boxes(image: Image, codestream: Seq<u8>)
    requires
        codestream.len() + 8 <= u32::MAX,
    ensures
        ({
            let b = jp2_layout(image, codestream);
            &&& b.len() == 85 + codestream.len()
            &&& box_at(b, 0) == (BoxStep::Found { typ: BOX_SIGNATURE, start: 8, end: 12 })
            &&& b.subrange(8, 12) == seq![0x0du8, 0x0a, 0x87, 0x0a]
            &&& box_at(b, 12) == (BoxStep::Found { typ: BOX_FILE_TYPE, start: 20, end: 32 })
            &&& file_type_ok(b.subrange(20, 32))
            &&& box_at(b, 32) == (BoxStep::Found { typ: BOX_JP2_HEADER, start: 40, end: 77 })
            &&& b.subrange(40, 77) == ihdr_box(image) + colr_box(image)
        }),
{
    let b = jp2_layout(image, codestream);
    assert(b.subrange(0, 8) =~= u32_be(12) + u32_be(BOX_SIGNATURE));
    lemma_box_header(b, 0, 12, BOX_SIGNATURE);
    assert(b.subrange(8, 12) =~= seq![0x0du8, 0x0a, 0x87, 0x0a]);
    assert(b.subrange(12, 20) =~= u32_be(20) + u32_be(BOX_FILE_TYPE));
    lemma_box_header(b, 12, 20, BOX_FILE_TYPE);
    let ft = b.subrange(20, 32);
    assert(ft =~= u32_be(BRAND_JP2) + u32_be(0) + u32_be(BRAND_JP2));
    lemma_u32_be_roundtrip(BRAND_JP2);
    assert(ft.subrange(0, 4) =~= u32_be(BRAND_JP2));
    assert(ft.subrange(8, 12) =~= u32_be(BRAND_JP2));
    assert(be32(ft, 0) == be32(ft.subrange(0, 4), 0));
    assert(be32(ft, 8int + 4 * 0int) == be32(ft.subrange(8, 12), 0));
    assert(file_type_ok(ft));
    assert(b.subrange(32, 40) =~= u32_be(45) + u32_be(BOX_JP2_HEADER));
    lemma_box_header(b, 32, 45, BOX_JP2_HEADER);
    assert(b.subrange(40, 77) =~= ihdr_box(image) + colr_box(image));
}

/// The codestream box at the back of the file.
proof fn lemma_codestream_box(image: Image, codestream: Seq<u8>)
    requires
        codestream.len() + 8 <= u32::MAX,
    ensures
        ({
            let b = jp2_layout(image, codestream);
            &&& box_at(b, 77) == (BoxStep::Found { typ: BOX_CODESTREAM, start: 85, end: (85 + codestream.len()) as nat })
            &&& box_at(b, (85 + codestream.len()) as nat) is End
            &&& b.subrange(85, 85 + codestream.len() as int) == codestream
        }),
{
    let b = jp2_layout(image, codestream);
    let n = codestream.len();
    assert(b.subrange(77, 85) =~= u32_be((n + 8) as u32) + u32_be(BOX_CODESTREAM));
    lemma_box_header(b, 77, (n + 8) as u32, BOX_CODESTREAM);
    crate::jp2_parse::lemma_box_advances(b, (85 + n) as nat);
    assert(b.subrange(85, 85 + n as int) =~= codestream);
}

/// A file that `wrap_codestream` writes parses back: the decoder reads the image's dimensions,
/// component count, 8-bit depth and colour space from its header, and the codestream box holds
/// exactly the codestream that was wrapped.
pub proof fn lemma_wrapped_file_reads_back(image: Image, codestream: Seq<u8>)
    requires
        codestream.len() + 8 <= u32::MAX,
    ensures
        crate::jp2_parse::jp2_spec(jp2_spec(image, codestream))
            == Parse::Done((wrapped_header(image), 85nat, (85 + codestream.len()) as nat)),
        jp2_spec(image, codestream).subrange(85, 85 + codestream.len() as int) == codestream,
{
    lemma_jp2_layout(image, codestream);
    lemma_front_boxes(image, codestream);
    lemma_codestream_box(image, codestream);
    let b = jp2_layout(image, codestream);
    let n = codestream.len();
    lemma_jp2_header_reads_back(image, b.subrange(40, 77));
    let r = Parse::Done((wrapped_header(image), 85nat, (85 + n) as nat));
    assert(top_scan(b, (85 + n) as nat, Some(wrapped_header(image)), Some((85nat, (85 + n) as nat))) == r);
    assert(top_scan(b, 77, Some(wrapped_header(image)), None) == r);
    assert(top_scan(b, 32, None, None) == r);
}

} // verus!

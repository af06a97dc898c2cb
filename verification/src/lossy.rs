//! The lossy lane from quantized coefficients: the 9/7 transform and its quantization are
//! floating point and happen before this library is called; from the quantization indices on,
//! the coding is the integer Tier-1 and Tier-2 coding of the lossless lane, every pass kept.
use vstd::prelude::*;
use crate::codestream::codestream_spec;
use crate::codestream_write::{CodestreamParts, TilePart, parts_spec, views};
use crate::context::EncodeContext;
use crate::decode_markers::WaveletTransform;
use crate::encoder::{NativeComponentCoefficients, NativeComponentLayout, build_component_layout, component_coded,
    component_owed, encode_component, layout_matches, lemma_layout_cells, subband_bitplanes, cell_fits};
use crate::error::{Result, encode_failed, invalid_input};
use crate::jp2_write::{jp2_spec, wrap_codestream};
use crate::markers::{build_main_header_segments, cod_spec, qcd_spec, siz_spec};
use crate::model::{EncodeOptions, Image, OutputFormat};
use crate::plan::{EncodingPlan, plan_issue, plan_matches};
use crate::plan_types::TilePartHeader;
use crate::t2_encode::{EncodedComponent, build_tile_part_payload_for_components, components_ok, payload_packets_spec};

verus! {

/// `e` is the Tier-1 coding of the quantized plane `q` under `plan`: of the layout of its
/// coefficients.
pub open spec fn component_from_quantized(e: EncodedComponent, plan: EncodingPlan, q: Seq<i32>) -> bool {
    exists|l: NativeComponentLayout| #[trigger] component_coded(e, l, plan)
        && layout_matches(l, plan.width as usize, plan.height as usize, plan.decomposition_levels, q, plan.code_block_size)
}

/// `v` is the Tier-1 coding of every quantized plane, in order.
pub open spec fn tier1_coded_quantized(v: Seq<EncodedComponent>, plan: EncodingPlan, qs: Seq<Seq<i32>>) -> bool {
    &&& v.len() == plan.component_count
    &&& forall|c: int| 0 <= c < v.len() ==> component_from_quantized(#[trigger] v[c], plan, qs[c])
}

/// `p` is a codestream of the quantized planes under `plan` before it is written out.
pub open spec fn quantized_parts_of(p: CodestreamParts, plan: EncodingPlan, qs: Seq<Seq<i32>>) -> bool {
    &&& p.main_header_segments@.len() == 3 && p.tile_parts@.len() == 1
    &&& p.tile_parts@[0].header == (TilePartHeader { tile_index: 0, part_index: 0, total_parts: 1 })
    &&& views(p.main_header_segments@) == seq![siz_spec(plan).unwrap(), cod_spec(plan), qcd_spec(plan).unwrap()]
    &&& p.tile_parts@[0].header_segments@.len() == 0
    &&& exists|v: Seq<EncodedComponent>| #[trigger] tier1_coded_quantized(v, plan, qs) && components_ok(v)
        && p.tile_parts@[0].payload.packet_views() == payload_packets_spec(v)
}

/// `b` is a codestream of the quantized planes under `plan`.
pub open spec fn quantized_codestream(b: Seq<u8>, plan: EncodingPlan, qs: Seq<Seq<i32>>) -> bool {
    exists|p: CodestreamParts| #[trigger] parts_spec(p, plan) == Some(b) && quantized_parts_of(p, plan, qs)
}

/// The quantized planes as plain sequences.
pub open spec fn planes_of(v: Seq<Vec<i32>>) -> Seq<Seq<i32>> {
    Seq::new(v.len(), |c: int| v[c]@)
}

/// Encoding the quantized planes of `image` with `options` is owed: the image and options are
/// valid and lossy, there is one plane of the image's size per component, and under the plan:
/// every subband's bit-plane count fits a byte, the SIZ and QCD segments can be written, the
/// code-block grids fit the packet headers' tag trees, the tile-part length fits the SOT field,
/// the codestream frames, and it fits a JP2 box when one is asked.
pub open spec fn quantized_owed(image: Image, options: EncodeOptions, qs: Seq<Seq<i32>>) -> bool {
    &&& !plan_issue(image, options)
    &&& options.quality < 100
    &&& qs.len() == image.components@.len()
    &&& forall|c: int| 0 <= c < qs.len() ==> (#[trigger] qs[c]).len() == (image.width as nat) * (image.height as nat)
    &&& forall|plan: EncodingPlan| #[trigger] plan_matches(plan, image, options) ==> {
        &&& forall|i: int| 0 <= i < plan.subband_quants@.len() ==> #[trigger] subband_bitplanes(plan, i) <= 255
        &&& siz_spec(plan) is Some && qcd_spec(plan) is Some
        &&& forall|v: Seq<EncodedComponent>| #[trigger] tier1_coded_quantized(v, plan, qs) ==> components_ok(v)
        &&& forall|p: CodestreamParts| #[trigger] quantized_parts_of(p, plan, qs) ==> parts_spec(p, plan) is Some
        &&& forall|b: Seq<u8>| #[trigger] quantized_codestream(b, plan, qs) ==> codestream_spec(b) is Some
            && (options.format == OutputFormat::Jp2 ==> b.len() + 8 <= u32::MAX)
    }
}

/// Tier-1 codes each quantized plane.
fn code_quantized_planes(context: &EncodeContext, coefficients: &Vec<Vec<i32>>) -> (r: Result<Vec<EncodedComponent>>)
    requires
        coefficients@.len() == context.plan.component_count,
    ensures
        r matches Ok(v) ==> tier1_coded_quantized(v@, context.plan, planes_of(coefficients@)),
        r matches Err(e) ==> e is EncodeFailed,
        ({
            let plan = context.plan;
            &&& (plan.width as nat) * (plan.height as nat) <= usize::MAX
            &&& plan.code_block_size.width >= 1 && plan.code_block_size.height >= 1
            &&& plan.subband_quants@.len() == 1 + 3 * plan.decomposition_levels
            &&& (forall|i: int| 0 <= i < plan.subband_quants@.len() ==> #[trigger] subband_bitplanes(plan, i) <= 255)
            &&& (forall|c: int| 0 <= c < coefficients@.len() ==> (#[trigger] coefficients@[c])@.len()
                == (plan.width as nat) * (plan.height as nat))
        }) ==> r is Ok,
{
    let plan = &context.plan;
    let ghost qs = planes_of(coefficients@);
    let width = plan.width as usize;
    let height = plan.height as usize;
    let mut components: Vec<EncodedComponent> = Vec::new();
    let mut c: usize = 0;
    while c < coefficients.len()
        invariant
            plan == &context.plan,
            qs == planes_of(coefficients@),
            coefficients@.len() == plan.component_count,
            width == plan.width,
            height == plan.height,
            c <= coefficients@.len(),
            components@.len() == c,
            forall|j: int| 0 <= j < c ==> component_from_quantized(#[trigger] components@[j], *plan, qs[j]),
        decreases coefficients@.len() - c,
    {
        let mut data: Vec<i32> = Vec::new();
        let src = &coefficients[c];
        let mut i: usize = 0;
        while i < src.len()
            invariant
                i <= src@.len(),
                data@ == src@.subrange(0, i as int),
            decreases src@.len() - i,
        {
            data.push(src[i]);
            i = i + 1;
        }
        assert(src@.subrange(0, src@.len() as int) =~= src@);
        assert(qs[c as int] == src@);
        let coeffs = NativeComponentCoefficients { width, height, levels: plan.decomposition_levels, data };
        let layout = build_component_layout(&coeffs, plan.code_block_size)?;
        proof {
            if (forall|i: int| 0 <= i < plan.subband_quants@.len() ==> #[trigger] subband_bitplanes(*plan, i) <= 255)
                && plan.subband_quants@.len() == 1 + 3 * plan.decomposition_levels {
                assert forall|i: int, k: int| 0 <= i < layout.subbands@.len() && 0 <= k < layout.subbands@[i].codeblocks@.len()
                    implies cell_fits(#[trigger] layout.subbands@[i].codeblocks@[k]) by {
                    lemma_layout_cells(layout, plan.width, plan.height, plan.decomposition_levels, src@, plan.code_block_size, i, k);
                }
                assert(component_owed(layout, *plan));
            }
        }
        let e = encode_component(plan, &layout)?;
        proof { assert(component_coded(e, layout, *plan)); }
        let ghost before = components@;
        components.push(e);
        proof {
            assert forall|j: int| 0 <= j < c + 1 implies component_from_quantized(#[trigger] components@[j], *plan, qs[j]) by {
                if j < c { assert(components@[j] == before[j]); }
            }
        }
        c = c + 1;
    }
    Ok(components)
}

/// Encodes an image on the lossy lane (quality below 100) from its quantized 9/7 coefficients:
/// `coefficients[c]` holds component `c`'s quantization indices, in the subband layout of the
/// forward transform with the plan's decomposition levels and step sizes. Every coding pass is
/// kept: no rate control truncates the code-blocks. The result is a raw codestream or a JP2 file
/// as the options ask.
pub fn encode_quantized(image: &Image, options: &EncodeOptions, coefficients: &Vec<Vec<i32>>) -> (r: Result<Vec<u8>>)
    ensures
        plan_issue(*image, *options) ==> (r matches Err(e) && e is InvalidInput),
        !plan_issue(*image, *options) && options.quality == 100 ==> (r matches Err(e) && e is InvalidInput),
        r matches Ok(v) ==> !plan_issue(*image, *options) && options.quality < 100,
        r matches Ok(v) ==> options.format == OutputFormat::J2k ==> codestream_spec(v@) is Some
            && exists|plan: EncodingPlan| #[trigger] plan_matches(plan, *image, *options)
                && quantized_codestream(v@, plan, planes_of(coefficients@)),
        r matches Ok(v) ==> options.format == OutputFormat::Jp2 ==> exists|cs: Seq<u8>| #[trigger] codestream_spec(cs) is Some
            && v@ == jp2_spec(*image, cs)
            && exists|plan: EncodingPlan| #[trigger] plan_matches(plan, *image, *options)
                && quantized_codestream(cs, plan, planes_of(coefficients@)),
        r matches Err(e) ==> e is InvalidInput || e is EncodeFailed,
        quantized_owed(*image, *options, planes_of(coefficients@)) ==> r is Ok,
{
    let context = EncodeContext::new(image, options)?;
    let ghost qs = planes_of(coefficients@);
    if context.plan.transform == WaveletTransform::Reversible53 {
        return Err(invalid_input("quality 100 is the lossless lane, which encodes the samples themselves"));
    }
    if coefficients.len() != context.plan.component_count as usize {
        return Err(encode_failed("one plane of quantized coefficients is needed per component"));
    }
    proof {
        if quantized_owed(*image, *options, qs) {
            assert(plan_matches(context.plan, *image, *options));
            assert forall|c: int| 0 <= c < coefficients@.len() implies (#[trigger] coefficients@[c])@.len()
                == (context.plan.width as nat) * (context.plan.height as nat) by {
                assert(qs[c] == coefficients@[c]@);
            }
        }
    }
    let encoded = code_quantized_planes(&context, coefficients)?;
    let payload = build_tile_part_payload_for_components(&encoded)?;
    let mut tile_parts: Vec<TilePart> = Vec::new();
    tile_parts.push(TilePart {
        header: TilePartHeader { tile_index: 0, part_index: 0, total_parts: 1 },
        header_segments: Vec::new(),
        payload,
    });
    let main_header_segments = build_main_header_segments(&context.plan)?;
    proof {
        assert(views(main_header_segments@) =~= seq![siz_spec(context.plan).unwrap(), cod_spec(context.plan), qcd_spec(context.plan).unwrap()]);
    }
    let parts = CodestreamParts { main_header_segments, tile_parts };
    proof {
        assert(tier1_coded_quantized(encoded@, context.plan, qs) && components_ok(encoded@));
        assert(quantized_parts_of(parts, context.plan, qs));
    }
    let codestream = parts.encode(&context.plan)?;
    proof {
        assert(parts_spec(parts, context.plan) == Some(codestream@));
        assert(quantized_codestream(codestream@, context.plan, qs));
    }
    CodestreamParts::parse_single_tile(codestream.as_slice())?;
    match context.plan.output_format {
        OutputFormat::J2k => Ok(codestream),
        OutputFormat::Jp2 => wrap_codestream(image, codestream.as_slice()),
    }
}

} // verus!

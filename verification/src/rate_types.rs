//! Plain types shared by rate control and perceptual weighting: truncation points, layer
//! budgets, pass and band kinds, the distortion model selector and source rectangles.
use vstd::prelude::*;
use crate::text::{append_decimal, decimal};

verus! {

/// Chosen truncation point for one code-block.
#[derive(Debug, Clone, Copy, PartialEq, Eq, Structural)]
pub struct BlockSelection {
    pub block_id: usize,
    /// Number of retained coding passes from the front of the stream.
    pub passes: u16,
}

impl BlockSelection {
    /// The selection that keeps no pass of the code-block.
    pub fn omitted(block_id: usize) -> (s: Self)
        ensures
            s.block_id == block_id,
            s.passes == 0,
    {
        BlockSelection { block_id, passes: 0 }
    }
}

/// Cumulative target for one quality layer.
#[derive(Debug, Clone, Copy, PartialEq, Eq, Structural)]
pub struct LayerBudget {
    pub layer_index: usize,
    /// Cumulative byte target up to and including this layer.
    pub target_bytes_cumulative: u32,
}

/// Coding pass type, used by pass-kind-aware distortion models.
#[derive(Debug, Clone, Copy, PartialEq, Eq, Structural)]
pub enum PassKind {
    SignificancePropagation,
    MagnitudeRefinement,
    Cleanup,
}

/// Subband orientation, used by band-bias distortion models.
#[derive(Debug, Clone, Copy, PartialEq, Eq, Structural)]
pub enum BandKind {
    Ll,
    Hl,
    Lh,
    Hh,
}

/// Distortion model selector.
#[derive(Debug, Clone, Copy, PartialEq, Eq, Structural)]
pub enum DistortionModel {
    /// Quant-aware energy, a quarter weight on refinement passes, flat band bias.
    BaselineAlpha,
    /// Separate weights per pass kind, and a bias per subband orientation.
    PassKindAware,
    /// Subband-domain visual masking after Taubman (2000), section VI.
    Taubman2000,
}

impl Default for DistortionModel {
    fn default() -> (m: Self)
        ensures
            m == DistortionModel::PassKindAware,
    {
        DistortionModel::PassKindAware
    }
}

/// Source rectangle for mapping code-blocks to image space.
#[derive(Debug, Clone, Copy, PartialEq, Eq, Structural)]
pub struct SourceRect {
    pub x0: usize,
    pub y0: usize,
    pub x1: usize,
    pub y1: usize,
}

/// Why rate-control selections are refused: here, cumulative layer selections that cannot be
/// turned into per-layer increments.
#[derive(Debug, Clone, Copy, PartialEq, Eq, Structural)]
pub enum PcrdError {
    /// Layer `layer_index` selects for `actual` code-blocks where the first layer selects for
    /// `expected`.
    InconsistentSelectionBlockCounts { layer_index: usize, expected: usize, actual: usize },
    /// Layer `layer_index` keeps fewer passes of a code-block than the layer before it.
    NonMonotoneLayerSelection { layer_index: usize, block_id: usize, previous_passes: u16, current_passes: u16 },
}

impl PcrdError {
    /// The text that describes the error.
    pub open spec fn spec_message(self) -> Seq<char> {
        match self {
            PcrdError::InconsistentSelectionBlockCounts { layer_index, expected, actual } =>
                "layer "@ + decimal(layer_index as nat) + " has inconsistent block count: expected "@
                    + decimal(expected as nat) + ", got "@ + decimal(actual as nat),
            PcrdError::NonMonotoneLayerSelection { layer_index, block_id, previous_passes, current_passes } =>
                "layer "@ + decimal(layer_index as nat) + " block "@ + decimal(block_id as nat)
                    + " regressed in cumulative passes: "@ + decimal(previous_passes as nat) + " -> "@
                    + decimal(current_passes as nat),
        }
    }

    /// The text that describes the error.
    pub fn message(&self) -> (m: String)
        ensures
            m@ == self.spec_message(),
    {
        let mut m = String::from_str("layer ");
        match *self {
            PcrdError::InconsistentSelectionBlockCounts { layer_index, expected, actual } => {
                append_decimal(&mut m, layer_index as u64);
                m.append(" has inconsistent block count: expected ");
                append_decimal(&mut m, expected as u64);
                m.append(", got ");
                append_decimal(&mut m, actual as u64);
            },
            PcrdError::NonMonotoneLayerSelection { layer_index, block_id, previous_passes, current_passes } => {
                append_decimal(&mut m, layer_index as u64);
                m.append(" block ");
                append_decimal(&mut m, block_id as u64);
                m.append(" regressed in cumulative passes: ");
                append_decimal(&mut m, previous_passes as u64);
                m.append(" -> ");
                append_decimal(&mut m, current_passes as u64);
            },
        }
        m
    }
}

/// The passes that the layer before `l` keeps of code-block `i` (none before the first layer).
pub open spec fn passes_before(c: Seq<Seq<BlockSelection>>, l: int, i: int) -> u16 {
    if l == 0 { 0 } else { c[l - 1][i].passes }
}

/// Layer `l` keeps fewer passes of code-block `i` than the layer before it.
pub open spec fn shrinks(c: Seq<Seq<BlockSelection>>, l: int, i: int) -> bool {
    c[l][i].passes < passes_before(c, l, i)
}

/// The selections of each layer, as plain sequences.
pub open spec fn layers_of(v: Seq<Vec<BlockSelection>>) -> Seq<Seq<BlockSelection>> {
    Seq::new(v.len(), |l: int| v[l]@)
}

/// Code-block `i` of layer `l` is the first, in layer then code-block order, whose passes shrink.
pub open spec fn first_shrink(c: Seq<Seq<BlockSelection>>, l: int, i: int) -> bool {
    &&& 0 <= l < c.len() && 0 <= i < c[l].len()
    &&& shrinks(c, l, i)
    &&& forall|m: int, j: int| 0 <= m < c.len() && 0 <= j < c[m].len() && (m < l || (m == l && j < i))
        ==> !#[trigger] shrinks(c, m, j)
}

/// Every layer selects for as many code-blocks as the first.
pub open spec fn counts_agree(c: Seq<Seq<BlockSelection>>) -> bool {
    forall|l: int| 0 <= l < c.len() ==> #[trigger] c[l].len() == c[0].len()
}

/// Turns cumulative per-layer selections (the passes kept of each code-block up to and including
/// each layer) into what each layer adds: per layer, each code-block's id and the passes that the
/// layer adds to those of the layer before.
pub fn cumulative_to_incremental_passes(cumulative: &Vec<Vec<BlockSelection>>) -> (r: core::result::Result<Vec<Vec<(usize, u16)>>, PcrdError>)
    ensures
        cumulative@.len() == 0 ==> (r matches Ok(v) && v@.len() == 0),
        r matches Err(PcrdError::InconsistentSelectionBlockCounts { layer_index, expected, actual }) ==>
            layer_index < cumulative@.len() && expected == cumulative@[0]@.len()
            && actual == cumulative@[layer_index as int]@.len() && actual != expected
            && forall|l: int| 0 <= l < layer_index ==> #[trigger] cumulative@[l]@.len() == expected,
        r matches Err(PcrdError::NonMonotoneLayerSelection { layer_index, block_id, previous_passes, current_passes }) ==>
            counts_agree(layers_of(cumulative@)) && exists|i: int| #[trigger] first_shrink(layers_of(cumulative@), layer_index as int, i)
                && block_id == layers_of(cumulative@)[layer_index as int][i].block_id
                && previous_passes == passes_before(layers_of(cumulative@), layer_index as int, i)
                && current_passes == layers_of(cumulative@)[layer_index as int][i].passes,
        ({
            let c = layers_of(cumulative@);
            r is Ok <==> c.len() == 0 || (counts_agree(c)
                && forall|l: int, i: int| 0 <= l < c.len() && 0 <= i < c[l].len() ==> !#[trigger] shrinks(c, l, i))
        }),
        r matches Ok(v) ==> v@.len() == cumulative@.len() && forall|l: int| 0 <= l < v@.len() ==> {
            let c = layers_of(cumulative@);
            &&& (#[trigger] v@[l])@.len() == c[l].len()
            &&& forall|i: int| 0 <= i < c[l].len() ==> #[trigger] v@[l]@[i]
                == (c[l][i].block_id, (c[l][i].passes - passes_before(c, l, i)) as u16)
        },
{
    let ghost c = layers_of(cumulative@);
    if cumulative.len() == 0 {
        return Ok(Vec::new());
    }
    let block_count = cumulative[0].len();
    let mut k: usize = 0;
    while k < cumulative.len()
        invariant
            c == layers_of(cumulative@),
            k <= cumulative@.len(),
            block_count == c[0].len(),
            forall|l: int| 0 <= l < k ==> #[trigger] c[l].len() == block_count,
        decreases cumulative@.len() - k,
    {
        if cumulative[k].len() != block_count {
            proof {
                assert(c[k as int] == cumulative@[k as int]@);
                assert(c[0] == cumulative@[0]@);
                assert(!(c[k as int].len() == c[0].len()));
                assert forall|l: int| 0 <= l < k implies #[trigger] cumulative@[l]@.len() == block_count by {
                    assert(c[l] == cumulative@[l]@);
                }
            }
            return Err(PcrdError::InconsistentSelectionBlockCounts {
                layer_index: k, expected: block_count, actual: cumulative[k].len() });
        }
        k = k + 1;
    }
    assert(counts_agree(c));
    let mut out: Vec<Vec<(usize, u16)>> = Vec::new();
    let mut previous: Vec<u16> = Vec::new();
    let mut i: usize = 0;
    while i < block_count
        invariant
            i <= block_count,
            previous@.len() == i,
            forall|j: int| 0 <= j < i ==> #[trigger] previous@[j] == 0,
        decreases block_count - i,
    {
        previous.push(0);
        i = i + 1;
    }
    let mut l: usize = 0;
    while l < cumulative.len()
        invariant
            c == layers_of(cumulative@),
            counts_agree(c),
            c.len() >= 1,
            block_count == c[0].len(),
            l <= c.len(),
            previous@.len() == block_count,
            forall|j: int| 0 <= j < block_count ==> #[trigger] previous@[j] == passes_before(c, l as int, j),
            out@.len() == l,
            forall|m: int, j: int| 0 <= m < l && 0 <= j < c[m].len() ==> !#[trigger] shrinks(c, m, j),
            forall|m: int| 0 <= m < l ==> {
                &&& (#[trigger] out@[m])@.len() == c[m].len()
                &&& forall|j: int| 0 <= j < c[m].len() ==> #[trigger] out@[m]@[j]
                    == (c[m][j].block_id, (c[m][j].passes - passes_before(c, m, j)) as u16)
            },
        decreases c.len() - l,
    {
        assert(c[l as int].len() == block_count);
        let layer = &cumulative[l];
        let mut this_layer: Vec<(usize, u16)> = Vec::new();
        let mut j: usize = 0;
        while j < layer.len()
            invariant
                c == layers_of(cumulative@),
                layer@ == c[l as int],
                counts_agree(c),
                l < c.len(),
                layer@.len() == block_count,
                previous@.len() == block_count,
                j <= block_count,
                forall|t: int| j <= t < block_count ==> #[trigger] previous@[t] == passes_before(c, l as int, t),
                forall|t: int| 0 <= t < j ==> #[trigger] previous@[t] == c[l as int][t].passes,
                this_layer@.len() == j,
                forall|m: int, t: int| 0 <= m < l && 0 <= t < c[m].len() ==> !#[trigger] shrinks(c, m, t),
                forall|t: int| 0 <= t < j ==> !#[trigger] shrinks(c, l as int, t),
                forall|t: int| 0 <= t < j ==> #[trigger] this_layer@[t]
                    == (c[l as int][t].block_id, (c[l as int][t].passes - passes_before(c, l as int, t)) as u16),
            decreases block_count - j,
        {
            let selection = layer[j];
            let prev = previous[j];
            if selection.passes < prev {
                proof {
                    assert(shrinks(c, l as int, j as int));
                    assert(first_shrink(layers_of(cumulative@), l as int, j as int));
                }
                let e = PcrdError::NonMonotoneLayerSelection {
                    layer_index: l, block_id: selection.block_id, previous_passes: prev, current_passes: selection.passes };
                proof {
                    assert(e matches PcrdError::NonMonotoneLayerSelection { layer_index, block_id, previous_passes, current_passes }
                        && layer_index == l);
                }
                return Err(e);
            }
            this_layer.push((selection.block_id, selection.passes - prev));
            previous.set(j, selection.passes);
            j = j + 1;
        }
        out.push(this_layer);
        proof {
            assert forall|t: int| 0 <= t < block_count implies #[trigger] previous@[t] == passes_before(c, (l + 1) as int, t) by {}
        }
        l = l + 1;
    }
    Ok(out)
}

} // verus!

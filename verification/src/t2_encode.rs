//! Tier-2 encoding (Annex B): the packet-header bit writer with its bit stuffing, the tag trees,
//! the pass-count and comma codes, code-block segment lengths, and the packets of one layer in
//! LRCP order.
use vstd::prelude::*;
use crate::bytes::push_all;
use crate::codestream_write::{PacketSequenceBuilder, TilePartPayload};
use crate::error::{Result, encode_failed};
use crate::header::floor_log2;
use crate::plan_types::BandOrientation;
use crate::t1_encode::{EncodedCodeBlock, EncodedPass};
use crate::t2_read::{TGT_NO_PARENT, TagTreeReader, TgtNode, lemma_path_in_range, tt_links_ok, tt_path};

verus! {

// ----------------------------------------------------------------------------
// The bit writer (B.10.1)
// ----------------------------------------------------------------------------

/// What the bit writer holds: the bytes written, the register and the bits left in its byte.
pub struct BioWriterView {
    pub buf: Seq<u8>,
    pub reg: u32,
    pub ct: u32,
}

/// A writer with nothing written.
pub open spec fn bio_writer_start() -> BioWriterView {
    BioWriterView { buf: Seq::empty(), reg: 0, ct: 8 }
}

/// Moves the register's byte out; after an 0xFF byte only seven bits go in the next one.
pub open spec fn bio_byteout(s: BioWriterView) -> BioWriterView {
    let reg = ((s.reg * 256) % 0x1_0000) as u32;
    BioWriterView { buf: s.buf.push((reg / 256) as u8), reg, ct: if reg == 0xff00 { 7 } else { 8 } }
}

/// Writes one bit.
pub open spec fn bio_putbit(s: BioWriterView, b: u32) -> BioWriterView {
    let t = if s.ct == 0 { bio_byteout(s) } else { s };
    let ct = (t.ct - 1) as u32;
    BioWriterView { buf: t.buf, reg: t.reg | (b << ct), ct }
}

/// Writes the bits one after the other.
pub open spec fn bio_putbits(s: BioWriterView, bits: Seq<u32>) -> BioWriterView
    decreases bits.len(),
{
    if bits.len() == 0 { s } else { bio_putbit(bio_putbits(s, bits.drop_last()), bits.last()) }
}

/// Writing two runs of bits is writing the one after the other.
pub proof fn lemma_putbits_append(s: BioWriterView, a: Seq<u32>, b: Seq<u32>)
    ensures
        bio_putbits(s, a + b) == bio_putbits(bio_putbits(s, a), b),
    decreases b.len(),
{
    if b.len() == 0 {
        assert(a + b =~= a);
    } else {
        assert((a + b).drop_last() =~= a + b.drop_last());
        lemma_putbits_append(s, a, b.drop_last());
    }
}

/// The bytes of a finished header: the last byte out, and one more after a stuffed byte.
pub open spec fn bio_flush(s: BioWriterView) -> Seq<u8> {
    let t = bio_byteout(s);
    if t.ct == 7 { bio_byteout(t).buf } else { t.buf }
}

/// The `n` low bits of `v`, most significant first (zero above bit 31).
pub open spec fn msb_bits(v: u32, n: nat) -> Seq<u32> {
    Seq::new(n, |i: int| {
        let sh = n - 1 - i;
        if sh >= 32 { 0u32 } else { (v >> (sh as u32)) & 1 }
    })
}

/// The bit writer of packet headers.
pub struct PacketBioWriter {
    buf: Vec<u8>,
    reg: u32,
    ct: u32,
}

impl PacketBioWriter {
    pub closed spec fn view(&self) -> BioWriterView {
        BioWriterView { buf: self.buf@, reg: self.reg, ct: self.ct }
    }

    pub closed spec fn wf(&self) -> bool {
        self.reg < 0x1_0000 && self.ct <= 8
    }

    /// A writer with nothing written.
    pub fn new() -> (w: Self)
        ensures
            w.wf(),
            w.view() == bio_writer_start(),
    {
        PacketBioWriter { buf: Vec::new(), reg: 0, ct: 8 }
    }

    fn byteout(&mut self)
        requires
            old(self).wf(),
        ensures
            final(self).wf(),
            final(self).view() == bio_byteout(old(self).view()),
    {
        let r0 = self.reg;
        let reg = (r0 << 8u32) & 0xffff;
        assert(reg == ((r0 * 256) % 0x1_0000) as u32) by (bit_vector)
            requires r0 < 0x1_0000, reg == (r0 << 8u32) & 0xffff;
        self.reg = reg;
        self.ct = if reg == 0xff00 { 7 } else { 8 };
        self.buf.push((reg >> 8u32) as u8);
        assert((reg >> 8u32) as u8 == (reg / 256) as u8) by (bit_vector);
    }

    /// Writes one bit, which is 0 or 1.
    pub fn putbit(&mut self, b: u32)
        requires
            old(self).wf(),
            b <= 1,
        ensures
            final(self).wf(),
            final(self).view() == bio_putbit(old(self).view(), b),
    {
        if self.ct == 0 {
            self.byteout();
        }
        self.ct = self.ct - 1;
        let ct = self.ct;
        let reg = self.reg;
        assert(reg | (b << ct) < 0x1_0000) by (bit_vector)
            requires reg < 0x1_0000, b <= 1, ct < 8;
        self.reg = reg | (b << ct);
    }

    /// Writes the `n` low bits of `v`, most significant first.
    pub fn write_bits(&mut self, v: u32, n: u32)
        requires
            old(self).wf(),
        ensures
            final(self).wf(),
            final(self).view() == bio_putbits(old(self).view(), msb_bits(v, n as nat)),
    {
        let ghost start = self.view();
        let mut k: u32 = 0;
        while k < n
            invariant
                self.wf(),
                k <= n,
                self.view() == bio_putbits(start, msb_bits(v, n as nat).take(k as int)),
            decreases n - k,
        {
            let sh = n - 1 - k;
            let bit: u32 = if sh >= 32 { 0 } else { (v >> sh) & 1 };
            assert(sh < 32 ==> (v >> sh) & 1 <= 1) by (bit_vector);
            let ghost bits = msb_bits(v, n as nat);
            self.putbit(bit);
            proof {
                assert(bits.take(k + 1).drop_last() =~= bits.take(k as int));
                assert(bits.take(k + 1).last() == bit);
            }
            k = k + 1;
        }
        assert(msb_bits(v, n as nat).take(n as int) =~= msb_bits(v, n as nat));
    }

    /// Finishes the header and hands its bytes over.
    pub fn flush(self) -> (r: Vec<u8>)
        requires
            self.wf(),
        ensures
            r@ == bio_flush(self.view()),
    {
        let mut me = self;
        me.byteout();
        if me.ct == 7 {
            me.byteout();
        }
        me.buf
    }
}

// ----------------------------------------------------------------------------
// Pass counts, comma codes and segment lengths (B.10.6, B.10.7)
// ----------------------------------------------------------------------------

/// floor(log2(v)), and 0 for v <= 1.
pub fn floor_log2_u32(v: u32) -> (r: u32)
    ensures
        r == floor_log2(v as nat),
        r < 32,
{
    proof {
        assert(crate::decode_markers::pow2_int(32) == 0x1_0000_0000) by {
            reveal_with_fuel(crate::decode_markers::pow2_int, 33);
        }
        crate::header::lemma_floor_log2_bound(v as nat, 32);
    }
    let mut n = v;
    let mut k: u32 = 0;
    while n > 1
        invariant
            k + floor_log2(n as nat) == floor_log2(v as nat),
            floor_log2(v as nat) < 32,
        decreases n,
    {
        n = n / 2;
        k = k + 1;
    }
    k
}

/// The code word and its width for a number of passes (Table B.4); counts past 164 are written
/// as 164.
pub open spec fn numpasses_spec(n: u32) -> (u32, u32) {
    if n <= 1 {
        (0, 1)
    } else if n == 2 {
        (2, 2)
    } else if n <= 5 {
        ((12 + (n - 3)) as u32, 4)
    } else if n <= 36 {
        ((0x1e0 + (n - 6)) as u32, 9)
    } else if n <= 164 {
        ((0xff80 + (n - 37)) as u32, 16)
    } else {
        ((0xff80 + 127) as u32, 16)
    }
}

/// The code word and its width for a number of passes (Table B.4).
pub fn numpasses_codeword(numpasses: u32) -> (r: (u32, u32))
    ensures
        r == numpasses_spec(numpasses),
{
    if numpasses <= 1 {
        (0, 1)
    } else if numpasses == 2 {
        (2, 2)
    } else if numpasses <= 5 {
        (12 + (numpasses - 3), 4)
    } else if numpasses <= 36 {
        (0x1e0 + (numpasses - 6), 9)
    } else if numpasses <= 164 {
        (0xff80 + (numpasses - 37), 16)
    } else {
        (0xff80 + 127, 16)
    }
}

/// Writes the number of passes of a code-block's contribution.
pub fn put_numpasses(bio: &mut PacketBioWriter, numpasses: u32)
    requires
        old(bio).wf(),
    ensures
        final(bio).wf(),
        final(bio).view() == bio_putbits(old(bio).view(), msb_bits(numpasses_spec(numpasses).0, numpasses_spec(numpasses).1 as nat)),
{
    let (codeword, width) = numpasses_codeword(numpasses);
    bio.write_bits(codeword, width);
}

/// `n` one bits and a zero bit.
pub open spec fn comma_bits(n: nat) -> Seq<u32> {
    Seq::new(n + 1, |i: int| if i < n { 1u32 } else { 0u32 })
}

/// Writes `n` in the comma code: `n` ones, then a zero.
pub fn put_commacode(bio: &mut PacketBioWriter, n: u32)
    requires
        old(bio).wf(),
    ensures
        final(bio).wf(),
        final(bio).view() == bio_putbits(old(bio).view(), comma_bits(n as nat)),
{
    let ghost start = bio.view();
    let mut k: u32 = 0;
    while k < n
        invariant
            bio.wf(),
            k <= n,
            bio.view() == bio_putbits(start, comma_bits(n as nat).take(k as int)),
        decreases n - k,
    {
        bio.putbit(1);
        proof {
            let bits = comma_bits(n as nat);
            assert(bits.take(k + 1).drop_last() =~= bits.take(k as int));
        }
        k = k + 1;
    }
    bio.putbit(0);
    proof {
        let bits = comma_bits(n as nat);
        assert(bits.take(n + 1).drop_last() =~= bits.take(n as int));
        assert(bits.take(n + 1) =~= bits);
    }
}

/// The segments of a code-block's passes as (bytes, passes) pairs, a segment ending at each
/// terminated pass and at the last pass; lengths are added in 32-bit wrapping arithmetic.
pub open spec fn segments_spec(passes: Seq<EncodedPass>) -> Seq<(u32, u32)>
    decreases passes.len(),
{
    segments_from(passes, 0, 0, 0)
}

/// The segments from pass `i` on, with `len` bytes and `nump` passes already in the open one.
pub open spec fn segments_from(passes: Seq<EncodedPass>, i: nat, len: u32, nump: u32) -> Seq<(u32, u32)>
    decreases passes.len() - i,
{
    if i >= passes.len() {
        Seq::empty()
    } else {
        let nump2 = vstd::wrapping::u32_specs::wrapping_add(nump, 1);
        let len2 = vstd::wrapping::u32_specs::wrapping_add(len, passes[i as int].length as u32);
        if passes[i as int].terminated || i == passes.len() - 1 {
            seq![(len2, nump2)] + segments_from(passes, i + 1, 0, 0)
        } else {
            segments_from(passes, i + 1, len2, nump2)
        }
    }
}

/// Groups a code-block's passes into segments.
pub fn codeblock_segments(passes: &[EncodedPass]) -> (r: Vec<(u32, u32)>)
    ensures
        r@ == segments_spec(passes@),
{
    let mut segments: Vec<(u32, u32)> = Vec::new();
    let mut seg_len: u32 = 0;
    let mut seg_nump: u32 = 0;
    let n = passes.len();
    let mut i: usize = 0;
    while i < n
        invariant
            n == passes@.len(),
            i <= n,
            segments@ + segments_from(passes@, i as nat, seg_len, seg_nump) == segments_spec(passes@),
        decreases n - i,
    {
        seg_nump = seg_nump.wrapping_add(1);
        seg_len = seg_len.wrapping_add(passes[i].length as u32);
        if passes[i].terminated || i == n - 1 {
            let ghost before = segments@;
            segments.push((seg_len, seg_nump));
            assert(before + (seq![(seg_len, seg_nump)] + segments_from(passes@, (i + 1) as nat, 0, 0))
                =~= segments@ + segments_from(passes@, (i + 1) as nat, 0, 0));
            seg_len = 0;
            seg_nump = 0;
        }
        i = i + 1;
    }
    assert(segments@ + Seq::<(u32, u32)>::empty() =~= segments@);
    segments
}

/// The increment of the length-bits indicator that the largest segment needs (B.10.7.1).
pub open spec fn increment_spec(numlenbits: u32, segments: Seq<(u32, u32)>) -> u32
    decreases segments.len(),
{
    if segments.len() == 0 {
        0
    } else {
        let prev = increment_spec(numlenbits, segments.drop_last());
        let (seg_len, seg_nump) = segments.last();
        if seg_len == 0 {
            prev
        } else {
            let needed = floor_log2(seg_len as nat) + 1;
            let have = numlenbits + floor_log2(seg_nump as nat);
            let inc = if needed > have { needed - have } else { 0 };
            if inc > prev { inc as u32 } else { prev }
        }
    }
}

/// How much the length-bits indicator must grow for every segment's length to fit.
pub fn length_increment(numlenbits: u32, segments: &[(u32, u32)]) -> (r: u32)
    requires
        numlenbits <= 0xffff,
    ensures
        r == increment_spec(numlenbits, segments@),
        r <= 33,
{
    let mut inc: u32 = 0;
    let mut i: usize = 0;
    while i < segments.len()
        invariant
            numlenbits <= 0xffff,
            i <= segments@.len(),
            inc == increment_spec(numlenbits, segments@.take(i as int)),
            inc <= 33,
        decreases segments@.len() - i,
    {
        let (seg_len, seg_nump) = segments[i];
        proof { assert(segments@.take(i + 1).drop_last() =~= segments@.take(i as int)); }
        if seg_len != 0 {
            let needed = floor_log2_u32(seg_len) + 1;
            let have = numlenbits + floor_log2_u32(seg_nump);
            let step = if needed > have { needed - have } else { 0 };
            if step > inc {
                inc = step;
            }
        }
        i = i + 1;
    }
    assert(segments@.take(segments@.len() as int) =~= segments@);
    inc
}

// ----------------------------------------------------------------------------
// Tag trees (B.10.2)
// ----------------------------------------------------------------------------

/// The value a tag-tree node holds before any leaf is set.
pub const TGT_UNSET: i32 = 999;

/// The nodes after leaf `idx` takes value `v`: it and each node above it that held more take `v`,
/// up to the first that held at most `v`.
pub open spec fn tt_set(nodes: Seq<TgtNode>, idx: nat, v: i32) -> Seq<TgtNode>
    decreases nodes.len() - idx,
{
    if idx >= nodes.len() || nodes[idx as int].value <= v {
        nodes
    } else {
        let n2 = nodes.update(idx as int, TgtNode { value: v, ..nodes[idx as int] });
        let p = nodes[idx as int].parent;
        if p == TGT_NO_PARENT || p <= idx || p >= nodes.len() {
            n2
        } else {
            tt_set(n2, p as nat, v)
        }
    }
}

/// Coding a node's value against `threshold` from bound `low`: a 0 for each value it is not, and
/// a 1 once, when the value is reached; the bound reached and whether the value is now told.
pub open spec fn tt_enc_inner(value: i32, known: bool, low: int, threshold: int) -> (int, bool, Seq<u32>)
    decreases threshold - low,
{
    if low >= threshold {
        (low, known, Seq::empty())
    } else if low >= value {
        if known { (low, known, Seq::empty()) } else { (low, true, seq![1u32]) }
    } else {
        let (l, k, b) = tt_enc_inner(value, known, low + 1, threshold);
        (l, k, seq![0u32] + b)
    }
}

/// Coding one node on the way down from the root, with the bound `low` its parent reached.
pub open spec fn tt_enc_visit(n: TgtNode, low: int, threshold: int) -> (TgtNode, int, Seq<u32>) {
    let low1 = if low > n.low { low } else { n.low as int };
    let (l, k, b) = tt_enc_inner(n.value, n.known, low1, threshold);
    (TgtNode { low: l as i32, known: k, ..n }, l, b)
}

/// Coding the nodes of `path` (root first) from its `k`-th on: the nodes after, and the bits.
pub open spec fn tt_enc_walk(nodes: Seq<TgtNode>, path: Seq<nat>, k: nat, low: int, threshold: int) -> (Seq<TgtNode>, Seq<u32>)
    decreases path.len() - k,
{
    if k >= path.len() {
        (nodes, Seq::empty())
    } else {
        let (m, l, b) = tt_enc_visit(nodes[path[k as int] as int], low, threshold);
        let (ns, bs) = tt_enc_walk(nodes.update(path[k as int] as int, m), path, k + 1, l, threshold);
        (ns, b + bs)
    }
}

/// Coding leaf `leaf` against `threshold` (B.10.2): the nodes after, and the bits written.
pub open spec fn tt_encode_spec(nodes: Seq<TgtNode>, leaf: nat, threshold: int) -> (Seq<TgtNode>, Seq<u32>) {
    tt_enc_walk(nodes, tt_path(nodes, leaf).reverse(), 0, 0, threshold)
}

proof fn lemma_enc_walk_keeps_links(nodes: Seq<TgtNode>, path: Seq<nat>, k: nat, low: int, threshold: int)
    requires
        forall|j: int| 0 <= j < path.len() ==> path[j] < nodes.len(),
    ensures
        tt_enc_walk(nodes, path, k, low, threshold).0.len() == nodes.len(),
        forall|i: int| 0 <= i < nodes.len() ==> (#[trigger] tt_enc_walk(nodes, path, k, low, threshold).0[i]).parent == nodes[i].parent,
    decreases path.len() - k,
{
    if k < path.len() {
        let (m, l, b) = tt_enc_visit(nodes[path[k as int] as int], low, threshold);
        let n2 = nodes.update(path[k as int] as int, m);
        lemma_enc_walk_keeps_links(n2, path, k + 1, l, threshold);
    }
}

/// A tag tree over `w` by `h` leaves with every node unset.
pub open spec fn tt_fresh(w: nat, h: nat) -> Seq<TgtNode> {
    let levels = crate::t2_read::tt_levels(w, h, 0);
    Seq::new(levels.len(), |i: int| TgtNode { parent: levels[i].parent, value: TGT_UNSET, low: 0, known: false })
}

/// A tag tree being written.
pub struct TagTreeWriter {
    nodes: Vec<TgtNode>,
}

impl TagTreeWriter {
    pub closed spec fn nodes(&self) -> Seq<TgtNode> {
        self.nodes@
    }

    pub open spec fn wf(&self) -> bool {
        tt_links_ok(self.nodes())
    }

    /// A tag tree over `numleafsh` by `numleafsv` leaves, every node unset.
    pub fn new(numleafsh: usize, numleafsv: usize) -> (t: Self)
        requires
            crate::t2_read::tt_fits(numleafsh as nat, numleafsv as nat),
        ensures
            t.wf(),
            t.nodes() == tt_fresh(numleafsh as nat, numleafsv as nat),
            t.nodes().len() >= numleafsh * numleafsv,
    {
        let mut nodes = TagTreeReader::new(numleafsh, numleafsv).into_nodes();
        let ghost levels = nodes@;
        proof { lemma_tt_levels_len(numleafsh as nat, numleafsv as nat, 0); }
        let n = nodes.len();
        let mut i: usize = 0;
        while i < n
            invariant
                n == nodes@.len(),
                levels.len() == n,
                levels == crate::t2_read::tt_levels(numleafsh as nat, numleafsv as nat, 0),
                i <= n,
                tt_links_ok(nodes@),
                forall|j: int| 0 <= j < n ==> (#[trigger] nodes@[j]).parent == levels[j].parent,
                forall|j: int| 0 <= j < i ==> #[trigger] nodes@[j] == tt_fresh(numleafsh as nat, numleafsv as nat)[j],
            decreases n - i,
        {
            let parent = nodes[i].parent;
            nodes.set(i, TgtNode { parent, value: TGT_UNSET, low: 0, known: false });
            assert forall|j: int| 0 <= j < nodes@.len() implies (#[trigger] nodes@[j]).parent == TGT_NO_PARENT
                || (j < nodes@[j].parent < nodes@.len()) by {}
            i = i + 1;
        }
        assert(nodes@ =~= tt_fresh(numleafsh as nat, numleafsv as nat));
        TagTreeWriter { nodes }
    }

    /// Sets a leaf's value, lowering each node above it that held more.
    pub fn set_value(&mut self, leafno: usize, value: i32)
        requires
            old(self).wf(),
            leafno < old(self).nodes().len(),
        ensures
            final(self).wf(),
            final(self).nodes() == tt_set(old(self).nodes(), leafno as nat, value),
            final(self).nodes().len() == old(self).nodes().len(),
    {
        let mut idx = leafno;
        loop
            invariant
                self.wf(),
                self.nodes().len() == old(self).nodes().len(),
                idx < self.nodes().len(),
                tt_set(self.nodes(), idx as nat, value) == tt_set(old(self).nodes(), leafno as nat, value),
            ensures
                self.wf(),
                self.nodes().len() == old(self).nodes().len(),
                self.nodes() == tt_set(old(self).nodes(), leafno as nat, value),
            decreases self.nodes().len() - idx,
        {
            let node = self.nodes[idx];
            if node.value <= value {
                break;
            }
            let ghost before = self.nodes@;
            self.nodes.set(idx, TgtNode { parent: node.parent, value, low: node.low, known: node.known });
            assert forall|j: int| 0 <= j < self.nodes@.len() implies (#[trigger] self.nodes@[j]).parent == TGT_NO_PARENT
                || (j < self.nodes@[j].parent < self.nodes@.len()) by {}
            assert(self.nodes@ == before.update(idx as int, TgtNode { value, ..before[idx as int] }));
            if node.parent == TGT_NO_PARENT {
                break;
            }
            idx = node.parent as usize;
        }
    }

    /// Writes what the decoder needs to learn whether leaf `leafno` is below `threshold`,
    /// walking from the root down and keeping what each node has already told.
    pub fn encode(&mut self, bio: &mut PacketBioWriter, leafno: usize, threshold: i32)
        requires
            old(self).wf(),
            old(bio).wf(),
            leafno < old(self).nodes().len(),
        ensures
            final(self).wf(),
            final(self).nodes().len() == old(self).nodes().len(),
            final(self).nodes() == tt_encode_spec(old(self).nodes(), leafno as nat, threshold as int).0,
            final(bio).wf(),
            final(bio).view() == bio_putbits(old(bio).view(), tt_encode_spec(old(self).nodes(), leafno as nat, threshold as int).1),
    {
        let ghost nodes0 = self.nodes@;
        let ghost v0 = bio.view();
        let mut stack: Vec<usize> = Vec::new();
        let ghost mut gstack: Seq<nat> = Seq::empty();
        let mut node_idx = leafno;
        while self.nodes[node_idx].parent != TGT_NO_PARENT
            invariant
                self.nodes@ == nodes0,
                tt_links_ok(nodes0),
                node_idx < nodes0.len(),
                gstack.len() == stack@.len(),
                forall|j: int| 0 <= j < gstack.len() ==> gstack[j] == stack@[j] as nat && stack@[j] < nodes0.len(),
                tt_path(nodes0, leafno as nat) == gstack + tt_path(nodes0, node_idx as nat),
            decreases nodes0.len() - node_idx,
        {
            let p = self.nodes[node_idx].parent as usize;
            proof {
                assert(tt_path(nodes0, node_idx as nat) == seq![node_idx as nat] + tt_path(nodes0, p as nat));
                assert(gstack + tt_path(nodes0, node_idx as nat) =~= gstack.push(node_idx as nat) + tt_path(nodes0, p as nat));
                gstack = gstack.push(node_idx as nat);
            }
            stack.push(node_idx);
            node_idx = p;
        }
        let ghost path_r = tt_path(nodes0, leafno as nat).reverse();
        proof {
            assert(tt_path(nodes0, node_idx as nat) == seq![node_idx as nat]);
            assert(path_r =~= seq![node_idx as nat] + gstack.reverse());
            lemma_path_in_range(nodes0, leafno as nat);
        }
        let ghost target = tt_enc_walk(nodes0, path_r, 0, 0, threshold as int);
        let ghost mut emitted: Seq<u32> = Seq::empty();
        let mut low: i32 = 0;
        let mut depth: usize = stack.len();
        let mut cur: usize = node_idx;
        loop
            invariant_except_break
                tt_enc_walk(self.nodes@, path_r, (stack@.len() - depth) as nat, low as int, threshold as int).0 == target.0,
                emitted + tt_enc_walk(self.nodes@, path_r, (stack@.len() - depth) as nat, low as int, threshold as int).1 == target.1,
            invariant
                tt_links_ok(nodes0),
                path_r == tt_path(nodes0, leafno as nat).reverse(),
                path_r == seq![node_idx as nat] + gstack.reverse(),
                forall|j: int| 0 <= j < path_r.len() ==> #[trigger] path_r[j] < nodes0.len(),
                gstack.len() == stack@.len(),
                forall|j: int| 0 <= j < gstack.len() ==> gstack[j] == stack@[j] as nat,
                depth <= stack@.len(),
                cur as nat == path_r[(stack@.len() - depth) as int],
                self.nodes@.len() == nodes0.len(),
                forall|i: int| 0 <= i < nodes0.len() ==> (#[trigger] self.nodes@[i]).parent == nodes0[i].parent,
                bio.wf(),
                bio.view() == bio_putbits(v0, emitted),
                nodes0 == old(self).nodes(),
                v0 == old(bio).view(),
                target == tt_enc_walk(nodes0, path_r, 0, 0, threshold as int),
            ensures
                self.nodes@ == target.0,
                emitted == target.1,
            decreases depth,
        {
            let ghost k = (stack@.len() - depth) as nat;
            let ghost before = self.nodes@;
            let node = self.nodes[cur];
            let mut l: i32 = if low > node.low { low } else { node.low };
            let mut known = node.known;
            let ghost inner = tt_enc_inner(node.value, node.known, l as int, threshold as int);
            let ghost bv = bio.view();
            let ghost mut e2: Seq<u32> = Seq::empty();
            while l < threshold
                invariant_except_break
                    tt_enc_inner(node.value, known, l as int, threshold as int).0 == inner.0,
                    tt_enc_inner(node.value, known, l as int, threshold as int).1 == inner.1,
                    e2 + tt_enc_inner(node.value, known, l as int, threshold as int).2 == inner.2,
                invariant
                    bio.wf(),
                    bio.view() == bio_putbits(bv, e2),
                    inner == tt_enc_inner(node.value, node.known, if low > node.low { low as int } else { node.low as int }, threshold as int),
                ensures
                    l as int == inner.0,
                    known == inner.1,
                    e2 == inner.2,
                decreases threshold - l,
            {
                if l >= node.value {
                    if !known {
                        bio.putbit(1);
                        proof {
                            assert(e2.push(1u32).drop_last() =~= e2);
                            assert(e2 + seq![1u32] =~= e2.push(1u32));
                            e2 = e2.push(1u32);
                        }
                        known = true;
                    } else {
                        assert(e2 + Seq::<u32>::empty() =~= e2);
                    }
                    break;
                } else {
                    bio.putbit(0);
                    proof {
                        let rest = tt_enc_inner(node.value, known, l + 1, threshold as int).2;
                        assert(e2.push(0u32).drop_last() =~= e2);
                        assert(e2 + (seq![0u32] + rest) =~= e2.push(0u32) + rest);
                        e2 = e2.push(0u32);
                    }
                    l = l + 1;
                }
            }
            proof {
                if !(l < threshold) {
                    assert(e2 + Seq::<u32>::empty() =~= e2);
                }
            }
            self.nodes.set(cur, TgtNode { parent: node.parent, value: node.value, low: l, known });
            proof {
                lemma_putbits_append(v0, emitted, e2);
                let (m, lv, b) = tt_enc_visit(before[cur as int], low as int, threshold as int);
                assert(m == TgtNode { parent: node.parent, value: node.value, low: l, known });
                assert(self.nodes@ == before.update(cur as int, m));
                assert(emitted + (e2 + tt_enc_walk(self.nodes@, path_r, k + 1, l as int, threshold as int).1)
                    =~= (emitted + e2) + tt_enc_walk(self.nodes@, path_r, k + 1, l as int, threshold as int).1);
                emitted = emitted + e2;
                assert(tt_links_ok(self.nodes@)) by {
                    assert forall|i: int| 0 <= i < self.nodes@.len() implies (#[trigger] self.nodes@[i]).parent == TGT_NO_PARENT
                        || (i < self.nodes@[i].parent < self.nodes@.len()) by {
                        assert(self.nodes@[i].parent == nodes0[i].parent);
                    }
                }
            }
            low = l;
            if depth == 0 {
                proof {
                    assert(k + 1 == path_r.len());
                    assert(emitted + Seq::<u32>::empty() =~= emitted);
                }
                break;
            }
            depth = depth - 1;
            cur = stack[depth];
            proof {
                assert(path_r[(stack@.len() - depth) as int] == gstack.reverse()[(stack@.len() - depth - 1) as int]);
            }
        }
        proof {
            assert(tt_links_ok(self.nodes@)) by {
                assert forall|i: int| 0 <= i < self.nodes@.len() implies (#[trigger] self.nodes@[i]).parent == TGT_NO_PARENT
                    || (i < self.nodes@[i].parent < self.nodes@.len()) by {
                    assert(self.nodes@[i].parent == nodes0[i].parent);
                }
            }
        }
    }
}

proof fn lemma_tt_levels_len(w: nat, h: nat, off: nat)
    requires
        w >= 1,
        h >= 1,
    ensures
        crate::t2_read::tt_levels(w, h, off).len() >= w * h,
    decreases w * h,
{
    if w * h > 1 {
        crate::t2_read::lemma_halving_shrinks(w, h);
        lemma_tt_levels_len((w + 1) / 2, (h + 1) / 2, off + w * h);
    }
}

// ----------------------------------------------------------------------------
// Packets
// ----------------------------------------------------------------------------

/// The coded code-blocks of one subband, with the size of its code-block grid.
#[derive(Debug, Clone)]
pub struct EncodedBand {
    pub resolution: u8,
    pub band: BandOrientation,
    pub grid_width: usize,
    pub grid_height: usize,
    pub blocks: Vec<EncodedCodeBlock>,
}

/// The coded subbands of one component, resolution by resolution.
#[derive(Debug, Clone)]
pub struct EncodedComponent {
    pub bands: Vec<EncodedBand>,
}

/// Whether a band's code-blocks fit its grid, and its grid fits a tag tree.
pub open spec fn band_ok(b: EncodedBand) -> bool {
    &&& crate::t2_read::tt_fits(b.grid_width as nat, b.grid_height as nat)
    &&& b.blocks@.len() <= b.grid_width * b.grid_height
}

/// The length bits of a code-block's segments: each length in `numlenbits` plus floor(log2) of
/// its pass count bits (B.10.7.1).
pub open spec fn seg_length_bits(segments: Seq<(u32, u32)>, numlenbits: u32) -> Seq<u32>
    decreases segments.len(),
{
    if segments.len() == 0 {
        Seq::empty()
    } else {
        seg_length_bits(segments.drop_last(), numlenbits)
            + msb_bits(segments.last().0, (numlenbits + floor_log2(segments.last().1 as nat)) as nat)
    }
}

/// The pass count of a code-block as the header codes it.
pub open spec fn coded_pass_count(block: EncodedCodeBlock) -> u32 {
    if block.passes@.len() > 0xffff_ffff { 0xffff_ffff } else { block.passes@.len() as u32 }
}

/// What a code-block with passes adds after its tag-tree bits: its pass count, the growth of its
/// length indicator, and its segment lengths.
pub open spec fn block_pass_bits(block: EncodedCodeBlock) -> Seq<u32> {
    let np = coded_pass_count(block);
    let segs = segments_spec(block.passes@);
    let inc = increment_spec(3, segs);
    msb_bits(numpasses_spec(np).0, numpasses_spec(np).1 as nat) + comma_bits(inc as nat)
        + seg_length_bits(segs, (3 + inc) as u32)
}

/// The header bits of code-blocks `k..` of a band, with the inclusion and zero bit-plane trees as
/// they stand.
pub open spec fn blocks_header_bits(blocks: Seq<EncodedCodeBlock>, k: nat, incl: Seq<TgtNode>, imsb: Seq<TgtNode>) -> Seq<u32>
    decreases blocks.len() - k,
{
    if k >= blocks.len() {
        Seq::empty()
    } else {
        let (incl2, b1) = tt_encode_spec(incl, k, 1);
        if blocks[k as int].passes@.len() > 0 {
            let (imsb2, b2) = tt_encode_spec(imsb, k, TGT_UNSET as int);
            b1 + b2 + block_pass_bits(blocks[k as int]) + blocks_header_bits(blocks, k + 1, incl2, imsb2)
        } else {
            b1 + blocks_header_bits(blocks, k + 1, incl2, imsb)
        }
    }
}

/// The inclusion and zero bit-plane trees after each code-block from `k` on has set its leaf.
pub open spec fn set_leaves(blocks: Seq<EncodedCodeBlock>, k: nat, incl: Seq<TgtNode>, imsb: Seq<TgtNode>) -> (Seq<TgtNode>, Seq<TgtNode>)
    decreases blocks.len() - k,
{
    if k >= blocks.len() {
        (incl, imsb)
    } else {
        let imsb2 = tt_set(imsb, k, blocks[k as int].zero_bitplanes as i32);
        let incl2 = if blocks[k as int].passes@.len() > 0 { tt_set(incl, k, 0) } else { incl };
        set_leaves(blocks, k + 1, incl2, imsb2)
    }
}

/// The header bits of one band: its code-blocks coded against fresh trees with their leaves set.
pub open spec fn band_header_bits(band: EncodedBand) -> Seq<u32> {
    let fresh = tt_fresh(band.grid_width as nat, band.grid_height as nat);
    let (incl, imsb) = set_leaves(band.blocks@, 0, fresh, fresh);
    blocks_header_bits(band.blocks@, 0, incl, imsb)
}

/// The header bits of the packet of resolution `res`: the packet-present bit, then each band of
/// that resolution that has code-blocks.
pub open spec fn packet_header_bits(bands: Seq<EncodedBand>, res: u8) -> Seq<u32>
    decreases bands.len(),
{
    if bands.len() == 0 {
        seq![1u32]
    } else {
        let b = bands.last();
        packet_header_bits(bands.drop_last(), res)
            + if b.resolution == res && b.blocks@.len() > 0 { band_header_bits(b) } else { Seq::empty() }
    }
}

/// The bytes of the header of the packet of resolution `res`.
pub open spec fn packet_header_spec(bands: Seq<EncodedBand>, res: u8) -> Seq<u8> {
    bio_flush(bio_putbits(bio_writer_start(), packet_header_bits(bands, res)))
}

/// Writes the header of the packet of one resolution of one component, over its subbands: the
/// packet-present bit, then per code-block its inclusion, its zero bit-planes, its pass count
/// and its segment lengths.
pub fn build_packet_header(bands: &Vec<EncodedBand>, resolution: u8) -> (r: Result<Vec<u8>>)
    ensures
        r matches Err(e) ==> e is EncodeFailed,
        r is Err <==> exists|i: int| 0 <= i < bands@.len() && (#[trigger] bands@[i]).resolution == resolution
            && bands@[i].blocks@.len() > 0 && !band_ok(bands@[i]),
        r matches Ok(h) ==> h@ == packet_header_spec(bands@, resolution),
{
    let mut bio = PacketBioWriter::new();
    bio.putbit(1);
    proof {
        assert(seq![1u32].drop_last() =~= Seq::<u32>::empty());
        assert(bio_putbits(bio_writer_start(), Seq::<u32>::empty()) == bio_writer_start());
        assert(bio_putbits(bio_writer_start(), seq![1u32]) == bio_putbit(bio_writer_start(), 1));
        assert(bands@.take(0) =~= Seq::<EncodedBand>::empty());
        assert(packet_header_bits(bands@.take(0), resolution) == seq![1u32]);
    }
    let mut bi: usize = 0;
    while bi < bands.len()
        invariant
            bio.wf(),
            bi <= bands@.len(),
            forall|i: int| 0 <= i < bi ==> !((#[trigger] bands@[i]).resolution == resolution
                && bands@[i].blocks@.len() > 0 && !band_ok(bands@[i])),
            bio.view() == bio_putbits(bio_writer_start(), packet_header_bits(bands@.take(bi as int), resolution)),
        decreases bands@.len() - bi,
    {
        proof {
            assert(bands@.take(bi + 1).drop_last() =~= bands@.take(bi as int));
            assert(bands@.take(bi + 1).last() == bands@[bi as int]);
        }
        let band = &bands[bi];
        let n = band.blocks.len();
        if band.resolution != resolution || n == 0 {
            proof {
                let prev = packet_header_bits(bands@.take(bi as int), resolution);
                assert(prev + Seq::<u32>::empty() =~= prev);
            }
            bi = bi + 1;
            continue;
        }
        let cx = band.grid_width;
        let cy = band.grid_height;
        if cx < 1 || cy < 1 || cx >= 0x4000_0000 || cy >= 0x4000_0000 {
            proof {
                if cx >= 1 && cy >= 1 {
                    assert(cx * cy >= 0x4000_0000) by (nonlinear_arith)
                        requires cx >= 1, cy >= 1, cx >= 0x4000_0000 || cy >= 0x4000_0000;
                }
            }
            return Err(encode_failed("code-block grid does not fit a tag tree"));
        }
        assert(cx * cy < 0x1000_0000_0000_0000) by (nonlinear_arith)
            requires cx < 0x4000_0000, cy < 0x4000_0000;
        if (cx as u64) * (cy as u64) >= 0x4000_0000 {
            return Err(encode_failed("code-block grid does not fit a tag tree"));
        }
        if n > cx * cy {
            return Err(encode_failed("code-block grid does not fit a tag tree"));
        }
        let ghost vb = bio.view();
        let ghost blocks = band.blocks@;
        let mut incl = TagTreeWriter::new(cx, cy);
        let mut imsb = TagTreeWriter::new(cx, cy);
        let ghost fresh = incl.nodes();
        let mut k: usize = 0;
        while k < n
            invariant
                n == band.blocks@.len(),
                blocks == band.blocks@,
                n <= cx * cy,
                incl.wf(),
                imsb.wf(),
                incl.nodes().len() >= cx * cy,
                imsb.nodes().len() >= cx * cy,
                k <= n,
                set_leaves(blocks, k as nat, incl.nodes(), imsb.nodes()) == set_leaves(blocks, 0, fresh, fresh),
            decreases n - k,
        {
            imsb.set_value(k, band.blocks[k].zero_bitplanes as i32);
            if band.blocks[k].passes.len() > 0 {
                incl.set_value(k, 0);
            }
            k = k + 1;
        }
        let ghost target = blocks_header_bits(blocks, 0, incl.nodes(), imsb.nodes());
        let ghost mut e: Seq<u32> = Seq::empty();
        let mut k: usize = 0;
        while k < n
            invariant
                n == band.blocks@.len(),
                blocks == band.blocks@,
                n <= cx * cy,
                incl.wf(),
                imsb.wf(),
                incl.nodes().len() >= cx * cy,
                imsb.nodes().len() >= cx * cy,
                bio.wf(),
                k <= n,
                bio.view() == bio_putbits(vb, e),
                e + blocks_header_bits(blocks, k as nat, incl.nodes(), imsb.nodes()) == target,
            decreases n - k,
        {
            let block = &band.blocks[k];
            let ghost v1 = bio.view();
            let ghost incl0 = incl.nodes();
            let ghost imsb0 = imsb.nodes();
            incl.encode(&mut bio, k, 1);
            let ghost b1 = tt_encode_spec(incl0, k as nat, 1).1;
            if block.passes.len() > 0 {
                imsb.encode(&mut bio, k, TGT_UNSET);
                let ghost b2 = tt_encode_spec(imsb0, k as nat, TGT_UNSET as int).1;
                proof { lemma_putbits_append(v1, b1, b2); }
                let numpasses: u32 = if block.passes.len() > 0xffff_ffff { 0xffff_ffff } else { block.passes.len() as u32 };
                put_numpasses(&mut bio, numpasses);
                let ghost nb = msb_bits(numpasses_spec(numpasses).0, numpasses_spec(numpasses).1 as nat);
                proof { lemma_putbits_append(v1, b1 + b2, nb); }
                let segments = codeblock_segments(block.passes.as_slice());
                let increment = length_increment(3, segments.as_slice());
                put_commacode(&mut bio, increment);
                let ghost cb = comma_bits(increment as nat);
                proof { lemma_putbits_append(v1, b1 + b2 + nb, cb); }
                let numlenbits = 3 + increment;
                let ghost vs = bio.view();
                let mut s: usize = 0;
                proof { assert(segments@.take(0) =~= Seq::<(u32, u32)>::empty()); }
                while s < segments.len()
                    invariant
                        bio.wf(),
                        numlenbits <= 36,
                        s <= segments@.len(),
                        bio.view() == bio_putbits(vs, seg_length_bits(segments@.take(s as int), numlenbits)),
                    decreases segments@.len() - s,
                {
                    let (seg_len, seg_nump) = segments[s];
                    let bits = numlenbits + floor_log2_u32(seg_nump);
                    let ghost before = seg_length_bits(segments@.take(s as int), numlenbits);
                    bio.write_bits(seg_len, bits);
                    proof {
                        assert(segments@.take(s + 1).drop_last() =~= segments@.take(s as int));
                        assert(segments@.take(s + 1).last() == segments@[s as int]);
                        lemma_putbits_append(vs, before, msb_bits(seg_len, bits as nat));
                    }
                    s = s + 1;
                }
                proof {
                    assert(segments@.take(segments@.len() as int) =~= segments@);
                    let sb = seg_length_bits(segments@, numlenbits);
                    lemma_putbits_append(v1, b1 + b2 + nb + cb, sb);
                    assert(block_pass_bits(*block) == nb + cb + sb);
                    assert(b1 + b2 + nb + cb + sb =~= b1 + b2 + block_pass_bits(*block));
                    let rest = blocks_header_bits(blocks, (k + 1) as nat, incl.nodes(), imsb.nodes());
                    lemma_putbits_append(vb, e, b1 + b2 + block_pass_bits(*block));
                    assert(e + (b1 + b2 + block_pass_bits(*block) + rest) =~= (e + (b1 + b2 + block_pass_bits(*block))) + rest);
                    e = e + (b1 + b2 + block_pass_bits(*block));
                }
            } else {
                proof {
                    let rest = blocks_header_bits(blocks, (k + 1) as nat, incl.nodes(), imsb.nodes());
                    lemma_putbits_append(vb, e, b1);
                    assert(e + (b1 + rest) =~= (e + b1) + rest);
                    e = e + b1;
                }
            }
            k = k + 1;
        }
        proof {
            assert(e + Seq::<u32>::empty() =~= e);
            assert(band_header_bits(bands@[bi as int]) == target);
            lemma_putbits_append(bio_writer_start(), packet_header_bits(bands@.take(bi as int), resolution), target);
        }
        bi = bi + 1;
    }
    proof { assert(bands@.take(bands@.len() as int) =~= bands@); }
    Ok(bio.flush())
}

/// The segments of code-blocks, one after the other.
pub open spec fn blocks_data(blocks: Seq<EncodedCodeBlock>) -> Seq<u8>
    decreases blocks.len(),
{
    if blocks.len() == 0 { Seq::empty() } else { blocks_data(blocks.drop_last()) + blocks.last().data@ }
}

/// The body of the packet of resolution `res`: the segments of the code-blocks of each band of
/// that resolution, band after band.
pub open spec fn packet_body_spec(bands: Seq<EncodedBand>, res: u8) -> Seq<u8>
    decreases bands.len(),
{
    if bands.len() == 0 {
        Seq::empty()
    } else {
        packet_body_spec(bands.drop_last(), res)
            + if bands.last().resolution == res { blocks_data(bands.last().blocks@) } else { Seq::empty() }
    }
}

/// The body of the packet of one resolution: each code-block's segment, band after band.
pub fn build_packet_body(bands: &Vec<EncodedBand>, resolution: u8) -> (r: Vec<u8>)
    ensures
        r@ == packet_body_spec(bands@, resolution),
{
    let mut body: Vec<u8> = Vec::new();
    let mut bi: usize = 0;
    proof { assert(bands@.take(0) =~= Seq::<EncodedBand>::empty()); }
    while bi < bands.len()
        invariant
            bi <= bands@.len(),
            body@ == packet_body_spec(bands@.take(bi as int), resolution),
        decreases bands@.len() - bi,
    {
        proof {
            assert(bands@.take(bi + 1).drop_last() =~= bands@.take(bi as int));
            assert(bands@.take(bi + 1).last() == bands@[bi as int]);
        }
        if bands[bi].resolution == resolution {
            let ghost before = body@;
            let mut k: usize = 0;
            proof { assert(bands@[bi as int].blocks@.take(0) =~= Seq::<EncodedCodeBlock>::empty()); }
            while k < bands[bi].blocks.len()
                invariant
                    bi < bands@.len(),
                    k <= bands@[bi as int].blocks@.len(),
                    body@ == before + blocks_data(bands@[bi as int].blocks@.take(k as int)),
                decreases bands@[bi as int].blocks@.len() - k,
            {
                proof {
                    let bl = bands@[bi as int].blocks@;
                    assert(bl.take(k + 1).drop_last() =~= bl.take(k as int));
                    assert(bl.take(k + 1).last() == bl[k as int]);
                }
                push_all(&mut body, bands[bi].blocks[k].data.as_slice());
                proof {
                    let bl = bands@[bi as int].blocks@;
                    assert(before + blocks_data(bl.take(k as int)) + bl[k as int].data@
                        =~= before + (blocks_data(bl.take(k as int)) + bl[k as int].data@));
                }
                k = k + 1;
            }
            proof { assert(bands@[bi as int].blocks@.take(bands@[bi as int].blocks@.len() as int) =~= bands@[bi as int].blocks@); }
        } else {
            proof {
                assert(body@ + Seq::<u8>::empty() =~= body@);
            }
        }
        bi = bi + 1;
    }
    proof { assert(bands@.take(bands@.len() as int) =~= bands@); }
    body
}

/// One packet: its resolution, how many code-blocks and passes it carries, its header and body.
#[derive(Debug, Clone, PartialEq, Eq)]
pub struct NativePacket {
    pub resolution: u8,
    pub codeblock_count: usize,
    pub pass_count: usize,
    pub header: Vec<u8>,
    pub body: Vec<u8>,
}

/// What a packet holds, as plain values.
pub struct PacketView {
    pub resolution: u8,
    pub codeblock_count: usize,
    pub pass_count: usize,
    pub header: Seq<u8>,
    pub body: Seq<u8>,
}

impl View for NativePacket {
    type V = PacketView;

    open spec fn view(&self) -> PacketView {
        PacketView {
            resolution: self.resolution,
            codeblock_count: self.codeblock_count,
            pass_count: self.pass_count,
            header: self.header@,
            body: self.body@,
        }
    }
}

/// What each packet holds.
pub open spec fn packet_views(v: Seq<NativePacket>) -> Seq<PacketView> {
    Seq::new(v.len(), |i: int| v[i]@)
}

/// The packets of a tile-part, in order.
#[derive(Debug, Clone, PartialEq, Eq)]
pub struct NativePacketSequence {
    pub packets: Vec<NativePacket>,
}

/// `a + b`, or the largest `usize` when that overflows.
pub open spec fn sat_add(a: usize, b: usize) -> usize {
    if a <= usize::MAX - b { (a + b) as usize } else { usize::MAX }
}

/// The passes of code-blocks added to `acc`, saturating.
pub open spec fn pass_total(blocks: Seq<EncodedCodeBlock>, acc: usize) -> usize
    decreases blocks.len(),
{
    if blocks.len() == 0 { acc } else { sat_add(pass_total(blocks.drop_last(), acc), blocks.last().passes@.len() as usize) }
}

/// How many code-blocks and passes the bands of resolution `res` carry (saturating), and whether
/// there is such a band.
pub open spec fn band_counts_spec(bands: Seq<EncodedBand>, res: u8) -> (usize, usize, bool)
    decreases bands.len(),
{
    if bands.len() == 0 {
        (0, 0, false)
    } else {
        let (b, p, present) = band_counts_spec(bands.drop_last(), res);
        let band = bands.last();
        if band.resolution == res {
            (sat_add(b, band.blocks@.len() as usize), pass_total(band.blocks@, p), true)
        } else {
            (b, p, present)
        }
    }
}

/// The number of code-blocks and passes the bands of a resolution carry (saturating).
fn band_counts(bands: &Vec<EncodedBand>, resolution: u8) -> (r: (usize, usize, bool))
    ensures
        r == band_counts_spec(bands@, resolution),
{
    let mut blocks: usize = 0;
    let mut passes: usize = 0;
    let mut present = false;
    let mut b: usize = 0;
    proof { assert(bands@.take(0) =~= Seq::<EncodedBand>::empty()); }
    while b < bands.len()
        invariant
            b <= bands@.len(),
            (blocks, passes, present) == band_counts_spec(bands@.take(b as int), resolution),
        decreases bands@.len() - b,
    {
        proof {
            assert(bands@.take(b + 1).drop_last() =~= bands@.take(b as int));
            assert(bands@.take(b + 1).last() == bands@[b as int]);
        }
        if bands[b].resolution == resolution {
            present = true;
            let n = bands[b].blocks.len();
            blocks = if blocks <= usize::MAX - n { blocks + n } else { usize::MAX };
            let ghost p0 = passes;
            let mut k: usize = 0;
            proof { assert(bands@[b as int].blocks@.take(0) =~= Seq::<EncodedCodeBlock>::empty()); }
            while k < n
                invariant
                    b < bands@.len(),
                    n == bands@[b as int].blocks@.len(),
                    k <= n,
                    passes == pass_total(bands@[b as int].blocks@.take(k as int), p0),
                decreases n - k,
            {
                proof {
                    let bl = bands@[b as int].blocks@;
                    assert(bl.take(k + 1).drop_last() =~= bl.take(k as int));
                    assert(bl.take(k + 1).last() == bl[k as int]);
                }
                let p = bands[b].blocks[k].passes.len();
                passes = if passes <= usize::MAX - p { passes + p } else { usize::MAX };
                k = k + 1;
            }
            proof { assert(bands@[b as int].blocks@.take(n as int) =~= bands@[b as int].blocks@); }
        }
        b = b + 1;
    }
    proof { assert(bands@.take(bands@.len() as int) =~= bands@); }
    (blocks, passes, present)
}

/// The highest resolution among bands, and `m`.
pub open spec fn bands_max_resolution(bands: Seq<EncodedBand>, m: u8) -> u8
    decreases bands.len(),
{
    if bands.len() == 0 {
        m
    } else {
        let m2 = bands_max_resolution(bands.drop_last(), m);
        if bands.last().resolution > m2 { bands.last().resolution } else { m2 }
    }
}

/// The highest resolution of any band of the components (0 when there is none).
pub open spec fn max_resolution(cs: Seq<EncodedComponent>) -> u8
    decreases cs.len(),
{
    if cs.len() == 0 { 0 } else { bands_max_resolution(cs.last().bands@, max_resolution(cs.drop_last())) }
}

/// The packet of one component at resolution `res`.
pub open spec fn component_packet(bands: Seq<EncodedBand>, res: u8) -> PacketView {
    let (blocks, passes, _) = band_counts_spec(bands, res);
    PacketView {
        resolution: res,
        codeblock_count: blocks,
        pass_count: passes,
        header: packet_header_spec(bands, res),
        body: packet_body_spec(bands, res),
    }
}

/// The packets of resolution `res`: one for each component that has bands at it, in component
/// order.
pub open spec fn resolution_packets(cs: Seq<EncodedComponent>, res: u8) -> Seq<PacketView>
    decreases cs.len(),
{
    if cs.len() == 0 {
        Seq::empty()
    } else {
        resolution_packets(cs.drop_last(), res)
            + if band_counts_spec(cs.last().bands@, res).2 { seq![component_packet(cs.last().bands@, res)] } else { Seq::empty() }
    }
}

/// The packets of the resolutions below `r`, lowest first.
pub open spec fn packets_below(cs: Seq<EncodedComponent>, r: nat) -> Seq<PacketView>
    decreases r,
{
    if r == 0 { Seq::empty() } else { packets_below(cs, (r - 1) as nat) + resolution_packets(cs, (r - 1) as u8) }
}

/// The packets of one layer in LRCP order.
pub open spec fn packet_sequence_spec(cs: Seq<EncodedComponent>) -> Seq<PacketView> {
    packets_below(cs, (max_resolution(cs) + 1) as nat)
}

/// Every band with code-blocks has a code-block grid that a tag tree can hold.
pub open spec fn components_ok(cs: Seq<EncodedComponent>) -> bool {
    forall|c: int, i: int| 0 <= c < cs.len() && 0 <= i < cs[c].bands@.len() && (#[trigger] cs[c].bands@[i]).blocks@.len() > 0
        ==> band_ok(cs[c].bands@[i])
}

proof fn lemma_present(bands: Seq<EncodedBand>, res: u8)
    ensures
        band_counts_spec(bands, res).2 <==> exists|i: int| 0 <= i < bands.len() && (#[trigger] bands[i]).resolution == res,
    decreases bands.len(),
{
    if bands.len() > 0 {
        lemma_present(bands.drop_last(), res);
        if band_counts_spec(bands.drop_last(), res).2 {
            let i = choose|i: int| 0 <= i < bands.drop_last().len() && (#[trigger] bands.drop_last()[i]).resolution == res;
            assert(bands[i] == bands.drop_last()[i]);
        }
        if exists|i: int| 0 <= i < bands.len() && (#[trigger] bands[i]).resolution == res {
            let i = choose|i: int| 0 <= i < bands.len() && (#[trigger] bands[i]).resolution == res;
            if i < bands.len() - 1 {
                assert(bands.drop_last()[i] == bands[i]);
            }
        }
    }
}

proof fn lemma_bands_max(bands: Seq<EncodedBand>, m: u8)
    ensures
        bands_max_resolution(bands, m) >= m,
        forall|i: int| 0 <= i < bands.len() ==> (#[trigger] bands[i]).resolution <= bands_max_resolution(bands, m),
    decreases bands.len(),
{
    if bands.len() > 0 {
        lemma_bands_max(bands.drop_last(), m);
        assert forall|i: int| 0 <= i < bands.len() implies (#[trigger] bands[i]).resolution <= bands_max_resolution(bands, m) by {
            if i < bands.len() - 1 {
                assert(bands.drop_last()[i] == bands[i]);
            }
        }
    }
}

proof fn lemma_max_resolution(cs: Seq<EncodedComponent>)
    ensures
        forall|c: int, i: int| 0 <= c < cs.len() && 0 <= i < cs[c].bands@.len()
            ==> (#[trigger] cs[c].bands@[i]).resolution <= max_resolution(cs),
    decreases cs.len(),
{
    if cs.len() > 0 {
        lemma_max_resolution(cs.drop_last());
        lemma_bands_max(cs.last().bands@, max_resolution(cs.drop_last()));
        assert forall|c: int, i: int| 0 <= c < cs.len() && 0 <= i < cs[c].bands@.len()
            implies (#[trigger] cs[c].bands@[i]).resolution <= max_resolution(cs) by {
            if c < cs.len() - 1 {
                assert(cs.drop_last()[c] == cs[c]);
            }
        }
    }
}

/// The packets of one layer in LRCP order: for each resolution from the lowest, the packet of
/// each component that has subbands at that resolution.
pub fn build_packet_sequence_for_components(components: &Vec<EncodedComponent>) -> (r: Result<NativePacketSequence>)
    ensures
        r is Ok <==> components_ok(components@),
        r matches Ok(sq) ==> packet_views(sq.packets@) == packet_sequence_spec(components@),
        r matches Err(e) ==> e is EncodeFailed,
{
    let ghost cs = components@;
    let mut max_res: u8 = 0;
    let mut c: usize = 0;
    proof { assert(cs.take(0) =~= Seq::<EncodedComponent>::empty()); }
    while c < components.len()
        invariant
            cs == components@,
            c <= cs.len(),
            max_res == max_resolution(cs.take(c as int)),
        decreases cs.len() - c,
    {
        let ghost m0 = max_res;
        let mut b: usize = 0;
        proof { assert(cs[c as int].bands@.take(0) =~= Seq::<EncodedBand>::empty()); }
        while b < components[c].bands.len()
            invariant
                cs == components@,
                c < cs.len(),
                b <= cs[c as int].bands@.len(),
                max_res == bands_max_resolution(cs[c as int].bands@.take(b as int), m0),
            decreases cs[c as int].bands@.len() - b,
        {
            proof {
                let bs = cs[c as int].bands@;
                assert(bs.take(b + 1).drop_last() =~= bs.take(b as int));
                assert(bs.take(b + 1).last() == bs[b as int]);
            }
            if components[c].bands[b].resolution > max_res {
                max_res = components[c].bands[b].resolution;
            }
            b = b + 1;
        }
        proof {
            assert(cs[c as int].bands@.take(cs[c as int].bands@.len() as int) =~= cs[c as int].bands@);
            assert(cs.take(c + 1).drop_last() =~= cs.take(c as int));
            assert(cs.take(c + 1).last() == cs[c as int]);
        }
        c = c + 1;
    }
    proof {
        assert(cs.take(cs.len() as int) =~= cs);
        lemma_max_resolution(cs);
    }
    let mut packets: Vec<NativePacket> = Vec::new();
    let mut r: u16 = 0;
    proof { assert(packet_views(packets@) =~= packets_below(cs, 0)); }
    while r <= max_res as u16
        invariant
            cs == components@,
            max_res == max_resolution(cs),
            r <= max_res as u16 + 1,
            packet_views(packets@) == packets_below(cs, r as nat),
            forall|c2: int, i: int| 0 <= c2 < cs.len() && 0 <= i < cs[c2].bands@.len()
                && (#[trigger] cs[c2].bands@[i]).blocks@.len() > 0 && cs[c2].bands@[i].resolution < r ==> band_ok(cs[c2].bands@[i]),
        decreases max_res as u16 + 1 - r,
    {
        let res = r as u8;
        let ghost before = packet_views(packets@);
        let mut c: usize = 0;
        proof { assert(cs.take(0) =~= Seq::<EncodedComponent>::empty()); assert(before + Seq::<PacketView>::empty() =~= before); }
        while c < components.len()
            invariant
                cs == components@,
                res as u16 == r,
                r <= max_res as u16,
                c <= cs.len(),
                before == packets_below(cs, r as nat),
                packet_views(packets@) == before + resolution_packets(cs.take(c as int), res),
                forall|c2: int, i: int| 0 <= c2 < cs.len() && 0 <= i < cs[c2].bands@.len()
                    && (#[trigger] cs[c2].bands@[i]).blocks@.len() > 0 && cs[c2].bands@[i].resolution < r ==> band_ok(cs[c2].bands@[i]),
                forall|c2: int, i: int| 0 <= c2 < c && 0 <= i < cs[c2].bands@.len()
                    && (#[trigger] cs[c2].bands@[i]).blocks@.len() > 0 && cs[c2].bands@[i].resolution == res ==> band_ok(cs[c2].bands@[i]),
            decreases cs.len() - c,
        {
            proof {
                assert(cs.take(c + 1).drop_last() =~= cs.take(c as int));
                assert(cs.take(c + 1).last() == cs[c as int]);
            }
            let bands = &components[c].bands;
            let (codeblock_count, pass_count, present) = band_counts(bands, res);
            proof { lemma_present(bands@, res); }
            if present {
                let header = build_packet_header(bands, res)?;
                let body = build_packet_body(bands, res);
                let ghost pv = packet_views(packets@);
                let p = NativePacket { resolution: res, codeblock_count, pass_count, header, body };
                packets.push(p);
                proof {
                    assert(packet_views(packets@) =~= pv.push(p@));
                    assert(p@ == component_packet(bands@, res));
                    assert(before + resolution_packets(cs.take(c as int), res) + seq![p@]
                        =~= before + (resolution_packets(cs.take(c as int), res) + seq![p@]));
                }
            } else {
                proof {
                    let rp = resolution_packets(cs.take(c as int), res);
                    assert(rp + Seq::<PacketView>::empty() =~= rp);
                }
            }
            c = c + 1;
        }
        proof {
            assert(cs.take(cs.len() as int) =~= cs);
        }
        r = r + 1;
    }
    proof {
        assert forall|c2: int, i: int| 0 <= c2 < cs.len() && 0 <= i < cs[c2].bands@.len() && (#[trigger] cs[c2].bands@[i]).blocks@.len() > 0
            implies band_ok(cs[c2].bands@[i]) by {
            assert(cs[c2].bands@[i].resolution <= max_res);
        }
    }
    Ok(NativePacketSequence { packets })
}

/// The packets of the tile-part payload of one layer: each packet's header followed by its body.
pub open spec fn payload_packets_spec(cs: Seq<EncodedComponent>) -> Seq<Seq<u8>> {
    Seq::new(packet_sequence_spec(cs).len(), |i: int| packet_sequence_spec(cs)[i].header + packet_sequence_spec(cs)[i].body)
}

/// The tile-part payload of the packets of one layer: each packet's header followed by its body,
/// in the order of the sequence.
pub fn build_tile_part_payload_for_components(components: &Vec<EncodedComponent>) -> (r: Result<TilePartPayload>)
    ensures
        r is Ok <==> components_ok(components@),
        r matches Ok(p) ==> p.packet_views() == payload_packets_spec(components@),
        r matches Err(e) ==> e is EncodeFailed,
{
    let sequence = build_packet_sequence_for_components(components)?;
    let ghost all = sequence.packets@;
    let ghost n = all.len();
    let mut builder = PacketSequenceBuilder::new();
    let mut packets = sequence.packets;
    let mut ordered: Vec<NativePacket> = Vec::new();
    while packets.len() > 0
        invariant
            packets@ + ordered@.reverse() == all,
        decreases packets@.len(),
    {
        let ghost before = packets@;
        let p = packets.pop().unwrap();
        proof {
            assert(before == packets@.push(p));
            assert(packets@ + ordered@.push(p).reverse() =~= packets@ + (seq![p] + ordered@.reverse()));
            assert(packets@ + (seq![p] + ordered@.reverse()) =~= before + ordered@.reverse());
        }
        ordered.push(p);
    }
    proof { assert(packets@ == Seq::<NativePacket>::empty()); assert(ordered@.reverse() =~= all); }
    while ordered.len() > 0
        invariant
            n == all.len(),
            ordered@.len() <= n,
            ordered@.reverse() == all.subrange(n - ordered@.len(), n as int),
            builder.packet_views() == Seq::new((n - ordered@.len()) as nat, |i: int| all[i].header@ + all[i].body@),
        decreases ordered@.len(),
    {
        let ghost before = ordered@;
        let p = ordered.pop().unwrap();
        proof {
            assert(before == ordered@.push(p));
            let k = n - before.len();
            assert(before.len() > 0);
            assert(before[before.len() - 1] == p);
            assert(before.reverse() =~= Seq::new(before.len(), |i: int| before[before.len() - 1 - i]));
            assert(before.reverse()[0] == p);
            assert(all.subrange(k, n as int)[0] == all[k]);
            assert(all[k] == p);
            assert(ordered@.reverse() =~= all.subrange(k + 1, n as int)) by {
                assert forall|j: int| 0 <= j < ordered@.len() implies ordered@.reverse()[j] == all.subrange(k + 1, n as int)[j] by {
                    assert(ordered@.reverse() =~= Seq::new(ordered@.len(), |i: int| ordered@[ordered@.len() - 1 - i]));
                    assert(before[before.len() - 1 - (j + 1)] == ordered@[ordered@.len() - 1 - j]);
                    assert(before.reverse()[j + 1] == ordered@.reverse()[j]);
                    assert(all.subrange(k, n as int)[j + 1] == all[k + j + 1]);
                }
            }
        }
        builder = builder.push_header_body_packet(p.header, p.body);
        proof {
            let k = n - before.len();
            assert(builder.packet_views() =~= Seq::new((k + 1) as nat, |i: int| all[i].header@ + all[i].body@));
        }
    }
    let payload = builder.finish_payload();
    proof {
        let spec = packet_sequence_spec(components@);
        assert(packet_views(all) == spec);
        assert(payload.packet_views() =~= Seq::new(spec.len(), |i: int| spec[i].header + spec[i].body)) by {
            assert forall|i: int| 0 <= i < spec.len() implies payload.packet_views()[i] == spec[i].header + spec[i].body by {
                assert(packet_views(all)[i] == all[i]@);
            }
        }
    }
    Ok(payload)
}

} // verus!

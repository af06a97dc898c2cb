//! Reading packet headers (Annex B.10): the bit reader with 0xff bit stuffing, comma codes,
//! pass counts and tag trees.
use vstd::prelude::*;
use crate::decode_markers::{bit_of, flag};
use crate::error::{Jp2LamError, Result, decode_failed};

verus! {

/// The position and the bit register of a packet-header bit reader.
pub struct BioView {
    pub pos: nat,
    pub reg: u8,
    pub ct: u8,
    pub prev_ff: bool,
}

/// The reader's state after reading one bit of `bytes`, and the bit; `None` past the end.
/// After an 0xff byte only seven bits of the next byte are read (B.10.1).
pub open spec fn bio_read(s: BioView, bytes: Seq<u8>) -> Option<(BioView, u32)> {
    let s1 = if s.ct == 0 {
        if s.pos >= bytes.len() {
            None
        } else {
            let b = bytes[s.pos as int];
            Some(BioView { pos: s.pos + 1, reg: b, ct: if s.prev_ff { 7u8 } else { 8u8 }, prev_ff: b == 0xff })
        }
    } else {
        Some(s)
    };
    match s1 {
        None => None,
        Some(t) => {
            let ct = (t.ct - 1) as u8;
            Some((BioView { ct, ..t }, if bit_of(t.reg, ct as nat) { 1u32 } else { 0u32 }))
        },
    }
}

/// `v` shifted left by one bit, within 32 bits.
pub open spec fn shl1(v: u32) -> u32 {
    if v >= 0x8000_0000 { ((v - 0x8000_0000) * 2) as u32 } else { (v * 2) as u32 }
}

/// Reading `n` bits, most significant first.
pub open spec fn bio_read_bits(s: BioView, bytes: Seq<u8>, n: nat) -> Option<(BioView, u32)>
    decreases n,
{
    if n == 0 {
        Some((s, 0u32))
    } else {
        match bio_read_bits(s, bytes, (n - 1) as nat) {
            None => None,
            Some((t, v)) => match bio_read(t, bytes) {
                None => None,
                Some((u, bit)) => Some((u, (shl1(v) + bit) as u32)),
            },
        }
    }
}

/// The comma code (B.10.7): the number of 1 bits before the first 0 bit, with `count` already read.
pub open spec fn bio_commacode(s: BioView, bytes: Seq<u8>, count: nat) -> Option<(BioView, u32)>
    decreases 0x1_0000_0000 - count,
{
    if count > u32::MAX {
        None
    } else {
        match bio_read(s, bytes) {
            None => None,
            Some((t, bit)) => if bit == 0 {
                Some((t, count as u32))
            } else if count + 1 > u32::MAX {
                None
            } else {
                bio_commacode(t, bytes, count + 1)
            },
        }
    }
}

/// The number of coding passes (B.10.6, Table B.4).
pub open spec fn bio_numpasses(s: BioView, bytes: Seq<u8>) -> Option<(BioView, u32)> {
    match bio_read(s, bytes) {
        None => None,
        Some((s1, b1)) => if b1 == 0 {
            Some((s1, 1u32))
        } else {
            match bio_read(s1, bytes) {
                None => None,
                Some((s2, b2)) => if b2 == 0 {
                    Some((s2, 2u32))
                } else {
                    match bio_read_bits(s2, bytes, 2) {
                        None => None,
                        Some((s3, v3)) => if v3 != 3 {
                            Some((s3, (3 + v3) as u32))
                        } else {
                            match bio_read_bits(s3, bytes, 5) {
                                None => None,
                                Some((s4, v4)) => if v4 != 31 {
                                    Some((s4, (6 + v4) as u32))
                                } else {
                                    match bio_read_bits(s4, bytes, 7) {
                                        None => None,
                                        Some((s5, v5)) => Some((s5, (37 + v5) as u32)),
                                    }
                                }
                            }
                        },
                    }
                },
            }
        },
    }
}

/// A reading position is inside the header and the register holds at most eight bits.
pub open spec fn bio_ok(s: BioView, bytes: Seq<u8>) -> bool {
    s.pos <= bytes.len() && s.ct <= 8
}

proof fn lemma_bio_read_ok(s: BioView, bytes: Seq<u8>)
    requires
        bio_ok(s, bytes),
    ensures
        bio_read(s, bytes) matches Some((t, bit)) ==> bio_ok(t, bytes) && bit <= 1 && t.pos >= s.pos,
{
}

proof fn lemma_bio_read_bits_ok(s: BioView, bytes: Seq<u8>, n: nat)
    requires
        bio_ok(s, bytes),
    ensures
        bio_read_bits(s, bytes, n) matches Some((t, v)) ==> bio_ok(t, bytes) && t.pos >= s.pos,
        n <= 8 ==> (bio_read_bits(s, bytes, n) matches Some((t, v)) ==> v < pow2_nat(n)),
    decreases n,
{
    if n > 0 {
        lemma_bio_read_bits_ok(s, bytes, (n - 1) as nat);
        if let Some((t, v)) = bio_read_bits(s, bytes, (n - 1) as nat) {
            lemma_bio_read_ok(t, bytes);
            if n <= 8 {
                assert(pow2_nat(n) == 2 * pow2_nat((n - 1) as nat));
                assert(pow2_nat((n - 1) as nat) <= 128) by {
                    lemma_pow2_nat_bound((n - 1) as nat);
                }
            }
        }
    }
}

pub open spec fn pow2_nat(n: nat) -> nat
    decreases n,
{
    if n == 0 { 1 } else { 2 * pow2_nat((n - 1) as nat) }
}

proof fn lemma_pow2_nat_bound(n: nat)
    requires
        n <= 7,
    ensures
        pow2_nat(n) <= 128,
    decreases n,
{
    reveal_with_fuel(pow2_nat, 8);
}

/// The packet-header bit reader.
pub struct PacketBioReader<'a> {
    bytes: &'a [u8],
    pos: usize,
    reg: u8,
    ct: u8,
    previous_was_ff: bool,
}

impl<'a> PacketBioReader<'a> {
    /// The reader's position and register.
    pub closed spec fn state(&self) -> BioView {
        BioView { pos: self.pos as nat, reg: self.reg, ct: self.ct, prev_ff: self.previous_was_ff }
    }

    /// The bytes being read.
    pub closed spec fn data(&self) -> Seq<u8> {
        self.bytes@
    }

    pub open spec fn wf(&self) -> bool {
        bio_ok(self.state(), self.data())
    }

    /// A reader at the start of `bytes`.
    pub fn new(bytes: &'a [u8]) -> (r: Self)
        ensures
            r.wf(),
            r.data() == bytes@,
            r.state() == (BioView { pos: 0, reg: 0, ct: 0, prev_ff: false }),
    {
        PacketBioReader { bytes, pos: 0, reg: 0, ct: 0, previous_was_ff: false }
    }

    /// Number of bytes the reader has started.
    pub fn bytes_consumed(&self) -> (n: usize)
        ensures
            n == self.state().pos,
    {
        self.pos
    }

    /// Reads one bit.
    pub fn read_bit(&mut self) -> (r: Result<u32>)
        requires
            old(self).wf(),
        ensures
            final(self).data() == old(self).data(),
            match bio_read(old(self).state(), old(self).data()) {
                None => r matches Err(e) && e is DecodeFailed,
                Some((t, bit)) => r == Ok::<u32, Jp2LamError>(bit) && final(self).state() == t && final(self).wf(),
            },
    {
        proof { lemma_bio_read_ok(self.state(), self.bytes@); }
        if self.ct == 0 {
            if self.pos >= self.bytes.len() {
                return Err(decode_failed("packet header ended before requested bit"));
            }
            let byte = self.bytes[self.pos];
            self.pos = self.pos + 1;
            self.reg = byte;
            self.ct = if self.previous_was_ff { 7 } else { 8 };
            self.previous_was_ff = byte == 0xff;
        }
        self.ct = self.ct - 1;
        Ok(if flag(self.reg, self.ct as u32) { 1 } else { 0 })
    }

    /// Reads `count` bits, most significant first.
    pub fn read_bits(&mut self, count: u32) -> (r: Result<u32>)
        requires
            old(self).wf(),
        ensures
            final(self).data() == old(self).data(),
            match bio_read_bits(old(self).state(), old(self).data(), count as nat) {
                None => r matches Err(e) && e is DecodeFailed,
                Some((t, v)) => r == Ok::<u32, Jp2LamError>(v) && final(self).state() == t && final(self).wf(),
            },
    {
        let ghost s0 = self.state();
        let mut value: u32 = 0;
        let mut i: u32 = 0;
        while i < count
            invariant
                self.wf(),
                self.data() == old(self).data(),
                s0 == old(self).state(),
                i <= count,
                bio_read_bits(s0, self.data(), i as nat) == Some((self.state(), value)),
            decreases count - i,
        {
            let ghost before = self.state();
            proof { lemma_bio_read_ok(before, self.data()); }
            let bit = match self.read_bit() {
                Ok(b) => b,
                Err(e) => {
                    proof { lemma_read_bits_fails_after(s0, self.data(), (i + 1) as nat, count as nat); }
                    return Err(e);
                },
            };
            value = if value >= 0x8000_0000 { (value - 0x8000_0000) * 2 } else { value * 2 };
            value = value + bit;
            i = i + 1;
        }
        Ok(value)
    }
}

proof fn lemma_read_bits_fails_after(s: BioView, bytes: Seq<u8>, k: nat, n: nat)
    requires
        k <= n,
        bio_read_bits(s, bytes, k) is None,
    ensures
        bio_read_bits(s, bytes, n) is None,
    decreases n - k,
{
    if k < n {
        lemma_read_bits_fails_after(s, bytes, k, (n - 1) as nat);
    }
}

/// Reads a comma code: the number of 1 bits before a 0 bit.
pub fn read_commacode(bio: &mut PacketBioReader) -> (r: Result<u32>)
    requires
        old(bio).wf(),
    ensures
        final(bio).data() == old(bio).data(),
        match bio_commacode(old(bio).state(), old(bio).data(), 0) {
            None => r matches Err(e) && e is DecodeFailed,
            Some((t, v)) => r == Ok::<u32, Jp2LamError>(v) && final(bio).state() == t && final(bio).wf(),
        },
{
    let mut count: u32 = 0;
    loop
        invariant
            bio.wf(),
            bio.data() == old(bio).data(),
            bio_commacode(bio.state(), bio.data(), count as nat) == bio_commacode(old(bio).state(), old(bio).data(), 0),
        decreases u32::MAX - count,
    {
        let bit = bio.read_bit()?;
        if bit != 1 {
            return Ok(count);
        }
        if count == u32::MAX {
            return Err(decode_failed("comma-code length overflow"));
        }
        count = count + 1;
    }
}

/// Reads the number of coding passes of a code-block contribution.
pub fn read_numpasses(bio: &mut PacketBioReader) -> (r: Result<u32>)
    requires
        old(bio).wf(),
    ensures
        final(bio).data() == old(bio).data(),
        match bio_numpasses(old(bio).state(), old(bio).data()) {
            None => r matches Err(e) && e is DecodeFailed,
            Some((t, v)) => r == Ok::<u32, Jp2LamError>(v) && final(bio).state() == t && final(bio).wf(),
        },
{
    if bio.read_bit()? == 0 {
        return Ok(1);
    }
    if bio.read_bit()? == 0 {
        return Ok(2);
    }
    let ghost s2 = bio.state();
    let next = bio.read_bits(2)?;
    proof { lemma_bio_read_bits_ok(s2, bio.data(), 2); reveal_with_fuel(pow2_nat, 3); }
    if next != 3 {
        return Ok(3 + next);
    }
    let ghost s3 = bio.state();
    let next = bio.read_bits(5)?;
    proof { lemma_bio_read_bits_ok(s3, bio.data(), 5); reveal_with_fuel(pow2_nat, 6); }
    if next != 31 {
        return Ok(6 + next);
    }
    let ghost s4 = bio.state();
    let last = bio.read_bits(7)?;
    proof { lemma_bio_read_bits_ok(s4, bio.data(), 7); reveal_with_fuel(pow2_nat, 8); }
    Ok(37 + last)
}


// ----------------------------------------------------------------------------
// Tag trees (B.10.2)
// ----------------------------------------------------------------------------

/// Parent link of the root node.
pub const TGT_NO_PARENT: u32 = u32::MAX;

/// A tag-tree node: its parent, its value once known, and the lower bound reached so far.
#[derive(Debug, Clone, Copy, PartialEq, Eq, Structural)]
pub struct TgtNode {
    pub parent: u32,
    pub value: i32,
    pub low: i32,
    pub known: bool,
}

/// The nodes of one tag-tree level of `w` by `h` nodes, in raster order, each linked to the node
/// of the next level (of width `w_next`, starting at `off_next`) that covers it, or to no parent
/// for the root level.
pub open spec fn tt_level(w: nat, h: nat, off_next: nat, w_next: nat, root: bool) -> Seq<TgtNode> {
    Seq::new(w * h, |i: int| TgtNode {
        parent: if root { TGT_NO_PARENT } else { (off_next + (i / w as int / 2) * w_next + (i % w as int) / 2) as u32 },
        value: i32::MAX,
        low: 0,
        known: false,
    })
}

/// The nodes of a tag tree whose lowest level is `w` by `h` and starts at `off`: each level halves
/// the one below it (rounding up) until a level of one node.
pub open spec fn tt_levels(w: nat, h: nat, off: nat) -> Seq<TgtNode>
    decreases w * h,
{
    if w * h <= 1 || w == 0 || h == 0 {
        tt_level(w, h, 0, 0, true)
    } else {
        let w2 = (w + 1) / 2;
        let h2 = (h + 1) / 2;
        proof { lemma_halving_shrinks(w, h); }
        tt_level(w, h, off + w * h, w2, false) + tt_levels(w2, h2, off + w * h)
    }
}

pub proof fn lemma_halving_shrinks(w: nat, h: nat)
    requires
        w >= 1,
        h >= 1,
        w * h > 1,
    ensures
        ((w + 1) / 2) * ((h + 1) / 2) < w * h,
        (w + 1) / 2 >= 1,
        (h + 1) / 2 >= 1,
{
    assert(((w + 1) / 2) * ((h + 1) / 2) < w * h) by (nonlinear_arith)
        requires w >= 1, h >= 1, w * h > 1;
}

/// Every parent link names a later node, or no node.
pub open spec fn tt_links_ok(nodes: Seq<TgtNode>) -> bool {
    forall|i: int| 0 <= i < nodes.len() ==> (#[trigger] nodes[i]).parent == TGT_NO_PARENT
        || (i < nodes[i].parent < nodes.len())
}

/// The nodes from `i` up to the root.
pub open spec fn tt_path(nodes: Seq<TgtNode>, i: nat) -> Seq<nat>
    decreases nodes.len() - i,
{
    if i >= nodes.len() {
        Seq::empty()
    } else {
        let p = nodes[i as int].parent;
        if p == TGT_NO_PARENT || p <= i || p >= nodes.len() {
            seq![i]
        } else {
            seq![i] + tt_path(nodes, p as nat)
        }
    }
}

/// Reading a node's value bit by bit while it is below `threshold` (B.10.2).
pub open spec fn tt_inner(n: TgtNode, low: int, threshold: int, s: BioView, bytes: Seq<u8>) -> Option<(TgtNode, int, BioView)>
    decreases threshold - low,
{
    if low >= threshold || n.known {
        Some((n, low, s))
    } else {
        match bio_read(s, bytes) {
            None => None,
            Some((t, bit)) => if bit == 1 {
                Some((TgtNode { value: low as i32, known: true, ..n }, low, t))
            } else {
                tt_inner(n, low + 1, threshold, t, bytes)
            },
        }
    }
}

/// Visiting one node on the way down from the root, with the bound `low` inherited from its parent.
pub open spec fn tt_visit(n: TgtNode, low: int, threshold: int, s: BioView, bytes: Seq<u8>) -> Option<(TgtNode, int, BioView)> {
    let low1 = if low > n.low { low } else { n.low as int };
    match tt_inner(TgtNode { low: low1 as i32, ..n }, low1, threshold, s, bytes) {
        None => None,
        Some((m, l2, t)) => {
            let l3 = if m.known && m.value > l2 { m.value as int } else { l2 };
            Some((TgtNode { low: l3 as i32, ..m }, l3, t))
        },
    }
}

/// Visiting the nodes of `path` (root first) from its `k`-th on.
pub open spec fn tt_walk(nodes: Seq<TgtNode>, path: Seq<nat>, k: nat, low: int, threshold: int, s: BioView, bytes: Seq<u8>) -> Option<(Seq<TgtNode>, BioView)>
    decreases path.len() - k,
{
    if k >= path.len() {
        Some((nodes, s))
    } else {
        match tt_visit(nodes[path[k as int] as int], low, threshold, s, bytes) {
            None => None,
            Some((m, l, t)) => tt_walk(nodes.update(path[k as int] as int, m), path, k + 1, l, threshold, t, bytes),
        }
    }
}

/// Decoding leaf `leaf` against `threshold`: the updated nodes, the reader, and whether the leaf's
/// value is known to be below the threshold.
pub open spec fn tt_decode(nodes: Seq<TgtNode>, leaf: nat, threshold: int, s: BioView, bytes: Seq<u8>) -> Option<(Seq<TgtNode>, BioView, bool)> {
    match tt_walk(nodes, tt_path(nodes, leaf).reverse(), 0, 0, threshold, s, bytes) {
        None => None,
        Some((ns, t)) => Some((ns, t, ns[leaf as int].known && ns[leaf as int].value < threshold)),
    }
}

/// A tag-tree reader.
pub struct TagTreeReader {
    nodes: Vec<TgtNode>,
}

proof fn lemma_level_links(w: nat, h: nat, off: nat)
    requires
        w >= 1,
        h >= 1,
        off + 2 * w * h + 2 * w + 2 * h < u32::MAX,
    ensures
        forall|i: int| 0 <= i < tt_levels(w, h, off).len() ==> {
            let p = (#[trigger] tt_levels(w, h, off)[i]).parent;
            p == TGT_NO_PARENT || (off + i < p < off + tt_levels(w, h, off).len())
        },
        w * h <= tt_levels(w, h, off).len() <= 2 * w * h + 2 * w + 2 * h,
    decreases w * h,
{
    if w * h > 1 {
        let w2 = (w + 1) / 2;
        let h2 = (h + 1) / 2;
        lemma_halving_shrinks(w, h);
        assert(off + w * h + 2 * w2 * h2 + 2 * w2 + 2 * h2 + (w * h) / 2 <= off + 2 * w * h + 2 * w + 2 * h) by (nonlinear_arith)
            requires w >= 1, h >= 1, w * h > 1, w2 == (w + 1) / 2, h2 == (h + 1) / 2;
        lemma_level_links(w2, h2, off + w * h);
        let lvl = tt_level(w, h, off + w * h, w2, false);
        let rest = tt_levels(w2, h2, off + w * h);
        assert(tt_levels(w, h, off) == lvl + rest);
        assert forall|i: int| 0 <= i < lvl.len() implies
            off + i < (#[trigger] lvl[i]).parent < off + lvl.len() + rest.len() by {
            let y = i / w as int;
            let x = i % w as int;
            assert(0 <= y < h && 0 <= x < w) by (nonlinear_arith)
                requires 0 <= i < w * h, y == i / w as int, x == i % w as int, w >= 1;
            assert((y / 2) * w2 + x / 2 < w2 * h2) by (nonlinear_arith)
                requires 0 <= y < h, 0 <= x < w, w2 == (w + 1) / 2, h2 == (h + 1) / 2;
        }
        assert forall|i: int| 0 <= i < tt_levels(w, h, off).len() implies {
            let p = (#[trigger] tt_levels(w, h, off)[i]).parent;
            p == TGT_NO_PARENT || (off + i < p < off + tt_levels(w, h, off).len())
        } by {
            if i >= lvl.len() {
                assert(tt_levels(w, h, off)[i] == rest[i - lvl.len()]);
            } else {
                assert(tt_levels(w, h, off)[i] == lvl[i]);
            }
        }
    }
}


proof fn lemma_inner_keeps_parent(n: TgtNode, low: int, threshold: int, s: BioView, bytes: Seq<u8>)
    ensures
        tt_inner(n, low, threshold, s, bytes) matches Some((m, l, t)) ==> m.parent == n.parent && l >= low,
    decreases threshold - low,
{
    if !(low >= threshold || n.known) {
        if let Some((t, bit)) = bio_read(s, bytes) {
            if bit != 1 {
                lemma_inner_keeps_parent(n, low + 1, threshold, t, bytes);
            }
        }
    }
}

proof fn lemma_visit_keeps_parent(n: TgtNode, low: int, threshold: int, s: BioView, bytes: Seq<u8>)
    ensures
        tt_visit(n, low, threshold, s, bytes) matches Some((m, l, t)) ==> m.parent == n.parent,
{
    let low1 = if low > n.low { low } else { n.low as int };
    lemma_inner_keeps_parent(TgtNode { low: low1 as i32, ..n }, low1, threshold, s, bytes);
}

proof fn lemma_walk_keeps_links(nodes: Seq<TgtNode>, path: Seq<nat>, k: nat, low: int, threshold: int, s: BioView, bytes: Seq<u8>)
    requires
        forall|j: int| 0 <= j < path.len() ==> path[j] < nodes.len(),
    ensures
        tt_walk(nodes, path, k, low, threshold, s, bytes) matches Some((ns, t)) ==> (ns.len() == nodes.len()
            && forall|i: int| 0 <= i < nodes.len() ==> (#[trigger] ns[i]).parent == nodes[i].parent),
    decreases path.len() - k,
{
    if k < path.len() {
        lemma_visit_keeps_parent(nodes[path[k as int] as int], low, threshold, s, bytes);
        if let Some((m, l, t)) = tt_visit(nodes[path[k as int] as int], low, threshold, s, bytes) {
            let n2 = nodes.update(path[k as int] as int, m);
            lemma_walk_keeps_links(n2, path, k + 1, l, threshold, t, bytes);
        }
    }
}

pub proof fn lemma_path_in_range(nodes: Seq<TgtNode>, i: nat)
    requires
        tt_links_ok(nodes),
    ensures
        forall|j: int| 0 <= j < tt_path(nodes, i).len() ==> #[trigger] tt_path(nodes, i)[j] < nodes.len(),
    decreases nodes.len() - i,
{
    if i < nodes.len() {
        let p = nodes[i as int].parent;
        if !(p == TGT_NO_PARENT || p <= i || p >= nodes.len()) {
            lemma_path_in_range(nodes, p as nat);
            assert forall|j: int| 0 <= j < tt_path(nodes, i).len() implies #[trigger] tt_path(nodes, i)[j] < nodes.len() by {
                if j > 0 {
                    assert(tt_path(nodes, i)[j] == tt_path(nodes, p as nat)[j - 1]);
                }
            }
        }
    }
}

/// A grid of `w` by `h` leaves that a tag tree can hold: its node indices fit 32 bits.
pub open spec fn tt_fits(w: nat, h: nat) -> bool {
    1 <= w && 1 <= h && w * h < 0x4000_0000
}

proof fn lemma_tt_room(w: nat, h: nat)
    requires
        tt_fits(w, h),
    ensures
        2 * w * h + 2 * w + 2 * h < u32::MAX,
{
    assert(w + h <= w * h + 1) by (nonlinear_arith)
        requires 1 <= w, 1 <= h;
    assert(2 * w * h + 2 * w + 2 * h < u32::MAX) by (nonlinear_arith)
        requires w + h <= w * h + 1, w * h < 0x4000_0000;
}

/// A fresh tag tree is well linked and has a node for every leaf.
pub proof fn lemma_tt_levels_ok(w: nat, h: nat)
    requires
        tt_fits(w, h),
    ensures
        tt_links_ok(tt_levels(w, h, 0)),
        tt_levels(w, h, 0).len() >= w * h,
{
    lemma_tt_room(w, h);
    lemma_level_links(w, h, 0);
}

impl TagTreeReader {
    /// The nodes of the tree.
    pub closed spec fn nodes(&self) -> Seq<TgtNode> {
        self.nodes@
    }

    pub open spec fn wf(&self) -> bool {
        tt_links_ok(self.nodes())
    }

    /// A tag tree over `numleafsh` by `numleafsv` leaves, with no value known yet.
    pub fn new(numleafsh: usize, numleafsv: usize) -> (t: Self)
        requires
            tt_fits(numleafsh as nat, numleafsv as nat),
        ensures
            t.wf(),
            t.nodes() == tt_levels(numleafsh as nat, numleafsv as nat, 0),
    {
        let mut nodes: Vec<TgtNode> = Vec::new();
        let mut lw: usize = numleafsh;
        let mut lh: usize = numleafsv;
        proof {
            lemma_tt_room(lw as nat, lh as nat);
        }
        loop
            invariant_except_break
                1 <= lw,
                1 <= lh,
                nodes@.len() + 2 * lw * lh + 2 * lw + 2 * lh < u32::MAX,
                nodes@ + tt_levels(lw as nat, lh as nat, nodes@.len()) == tt_levels(numleafsh as nat, numleafsv as nat, 0),
            ensures
                nodes@ == tt_levels(numleafsh as nat, numleafsv as nat, 0),
            decreases lw * lh,
        {
            let off = nodes.len();
            assert(lw * lh <= 2 * lw * lh) by (nonlinear_arith) requires lw >= 1, lh >= 1;
            let n = lw * lh;
            if n <= 1 {
                let ghost base = nodes@;
                let mut i: usize = 0;
                while i < n
                    invariant
                        i <= n,
                        n == lw * lh,
                        nodes@ == base + tt_level(lw as nat, lh as nat, 0, 0, true).take(i as int),
                    decreases n - i,
                {
                    nodes.push(TgtNode { parent: TGT_NO_PARENT, value: i32::MAX, low: 0, known: false });
                    i += 1;
                    assert(nodes@ =~= base + tt_level(lw as nat, lh as nat, 0, 0, true).take(i as int));
                }
                assert(tt_level(lw as nat, lh as nat, 0, 0, true).take(n as int) =~= tt_level(lw as nat, lh as nat, 0, 0, true));
                assert(tt_levels(lw as nat, lh as nat, off as nat) == tt_level(lw as nat, lh as nat, 0, 0, true));
                break;
            }
            let w2 = (lw + 1) / 2;
            let h2 = (lh + 1) / 2;
            let off_next = off + n;
            proof {
                lemma_halving_shrinks(lw as nat, lh as nat);
                assert(off + lw * lh + 2 * w2 * h2 + 2 * w2 + 2 * h2 + (lw * lh) / 2 <= off + 2 * lw * lh + 2 * lw + 2 * lh) by (nonlinear_arith)
                    requires lw >= 1, lh >= 1, lw * lh > 1, w2 == (lw + 1) / 2, h2 == (lh + 1) / 2;
                assert(w2 * h2 <= 2 * w2 * h2) by (nonlinear_arith) requires w2 >= 1, h2 >= 1;
            }
            let ghost base = nodes@;
            let ghost lvl = tt_level(lw as nat, lh as nat, off_next as nat, w2 as nat, false);
            let mut i: usize = 0;
            while i < n
                invariant
                    i <= n,
                    n == lw * lh,
                    lw >= 1,
                    w2 == (lw + 1) / 2,
                    h2 == (lh + 1) / 2,
                    off_next + w2 * h2 < u32::MAX,
                    lvl == tt_level(lw as nat, lh as nat, off_next as nat, w2 as nat, false),
                    nodes@ == base + lvl.take(i as int),
                decreases n - i,
            {
                let y = i / lw;
                let x = i % lw;
                proof {
                    assert(y < lh && x < lw) by (nonlinear_arith)
                        requires i < lw * lh, y == i / lw, x == i % lw, lw >= 1;
                    assert((y / 2) * w2 + x / 2 < w2 * h2) by (nonlinear_arith)
                        requires y < lh, x < lw, w2 == (lw + 1) / 2, h2 == (lh + 1) / 2;
                }
                let parent = off_next + (y / 2) * w2 + x / 2;
                nodes.push(TgtNode { parent: parent as u32, value: i32::MAX, low: 0, known: false });
                i += 1;
                assert(nodes@ =~= base + lvl.take(i as int));
            }
            assert(lvl.take(n as int) =~= lvl);
            assert(tt_levels(lw as nat, lh as nat, off as nat) == lvl + tt_levels(w2 as nat, h2 as nat, off_next as nat));
            assert(nodes@ + tt_levels(w2 as nat, h2 as nat, nodes@.len()) == tt_levels(numleafsh as nat, numleafsv as nat, 0));
            lw = w2;
            lh = h2;
        }
        proof {
            lemma_tt_room(numleafsh as nat, numleafsv as nat);
            lemma_level_links(numleafsh as nat, numleafsv as nat, 0);
        }
        TagTreeReader { nodes }
    }

    /// The tree's nodes, handed over.
    pub fn into_nodes(self) -> (v: Vec<TgtNode>)
        ensures
            v@ == self.nodes(),
    {
        self.nodes
    }

    /// The value of leaf `leafno`, once known.
    pub fn value(&self, leafno: usize) -> (v: Option<i32>)
        ensures
            v == (if leafno < self.nodes().len() && self.nodes()[leafno as int].known {
                Some(self.nodes()[leafno as int].value)
            } else {
                None::<i32>
            }),
    {
        if leafno < self.nodes.len() && self.nodes[leafno].known {
            Some(self.nodes[leafno].value)
        } else {
            None
        }
    }

    /// Decodes whether leaf `leafno` has a value below `threshold` (B.10.2); the decoded state is
    /// kept so that later packets continue from it.
    pub fn decode(&mut self, bio: &mut PacketBioReader, leafno: usize, threshold: i32) -> (r: Result<bool>)
        requires
            old(self).wf(),
            old(bio).wf(),
        ensures
            final(bio).data() == old(bio).data(),
            leafno >= old(self).nodes().len() ==> (r matches Err(e) && e is DecodeFailed),
            leafno < old(self).nodes().len() ==> match tt_decode(old(self).nodes(), leafno as nat, threshold as int,
                old(bio).state(), old(bio).data()) {
                None => r matches Err(e) && e is DecodeFailed,
                Some((ns, t, b)) => r == Ok::<bool, Jp2LamError>(b) && final(self).nodes() == ns
                    && final(bio).state() == t && final(bio).wf() && final(self).wf()
                    && ns.len() == old(self).nodes().len(),
            },
    {
        if leafno >= self.nodes.len() {
            return Err(decode_failed("tag-tree leaf index out of range"));
        }
        let ghost nodes0 = self.nodes@;
        let ghost s0 = bio.state();
        let mut stack: Vec<usize> = Vec::new();
        let ghost mut gstack: Seq<nat> = Seq::empty();
        let mut node_idx: usize = leafno;
        while self.nodes[node_idx].parent != TGT_NO_PARENT
            invariant
                self.nodes@ == nodes0,
                tt_links_ok(nodes0),
                node_idx < nodes0.len(),
                gstack.len() == stack@.len(),
                forall|j: int| 0 <= j < gstack.len() ==> gstack[j] == stack@[j] as nat && stack@[j] < nodes0.len(),
                tt_path(nodes0, leafno as nat) == gstack + tt_path(nodes0, node_idx as nat),
            decreases nodes0.len() - node_idx,
        {
            let p = self.nodes[node_idx].parent as usize;
            proof {
                assert(tt_path(nodes0, node_idx as nat) == seq![node_idx as nat] + tt_path(nodes0, p as nat));
                assert(gstack + tt_path(nodes0, node_idx as nat) =~= gstack.push(node_idx as nat) + tt_path(nodes0, p as nat));
                gstack = gstack.push(node_idx as nat);
            }
            stack.push(node_idx);
            node_idx = p;
        }
        let ghost path_r = tt_path(nodes0, leafno as nat).reverse();
        proof {
            assert(tt_path(nodes0, node_idx as nat) == seq![node_idx as nat]);
            assert(path_r =~= seq![node_idx as nat] + gstack.reverse());
            lemma_path_in_range(nodes0, leafno as nat);
        }
        let mut low: i32 = 0;
        let mut depth: usize = stack.len();
        let mut cur: usize = node_idx;
        loop
            invariant_except_break
                tt_walk(self.nodes@, path_r, (stack@.len() - depth) as nat, low as int, threshold as int, bio.state(), bio.data())
                    == tt_walk(nodes0, path_r, 0, 0, threshold as int, s0, bio.data()),
            invariant
                tt_links_ok(nodes0),
                path_r == tt_path(nodes0, leafno as nat).reverse(),
                path_r == seq![node_idx as nat] + gstack.reverse(),
                forall|j: int| 0 <= j < path_r.len() ==> #[trigger] path_r[j] < nodes0.len(),
                gstack.len() == stack@.len(),
                forall|j: int| 0 <= j < gstack.len() ==> gstack[j] == stack@[j] as nat,
                depth <= stack@.len(),
                cur as nat == path_r[(stack@.len() - depth) as int],
                self.nodes@.len() == nodes0.len(),
                forall|i: int| 0 <= i < nodes0.len() ==> (#[trigger] self.nodes@[i]).parent == nodes0[i].parent,
                bio.wf(),
                bio.data() == old(bio).data(),
                s0 == old(bio).state(),
                nodes0 == old(self).nodes(),
            ensures
                tt_walk(nodes0, path_r, 0, 0, threshold as int, s0, bio.data()) == Some((self.nodes@, bio.state())),
                bio.wf(),
                bio.data() == old(bio).data(),
                tt_links_ok(self.nodes@),
                self.nodes@.len() == nodes0.len(),
            decreases depth,
        {
            let ghost k = (stack@.len() - depth) as nat;
            let ghost before = self.nodes@;
            let ghost bs = bio.state();
            proof { lemma_visit_keeps_parent(before[cur as int], low as int, threshold as int, bs, bio.data()); }
            let l = match self.visit(cur, low, threshold, bio) {
                Ok(l) => l,
                Err(e) => { return Err(e); },
            };
            proof {
                assert(tt_walk(before, path_r, k, low as int, threshold as int, bs, bio.data())
                    == tt_walk(self.nodes@, path_r, k + 1, l as int, threshold as int, bio.state(), bio.data()));
            }
            low = l;
            if depth == 0 {
                proof {
                    assert(k + 1 == path_r.len());
                    assert(tt_links_ok(self.nodes@)) by {
                        assert forall|i: int| 0 <= i < self.nodes@.len() implies (#[trigger] self.nodes@[i]).parent == TGT_NO_PARENT
                            || (i < self.nodes@[i].parent < self.nodes@.len()) by {
                            assert(self.nodes@[i].parent == nodes0[i].parent);
                        }
                    }
                }
                break;
            }
            depth = depth - 1;
            cur = stack[depth];
            proof {
                assert(path_r[(stack@.len() - depth) as int] == gstack.reverse()[(stack@.len() - depth - 1) as int]);
            }
        }
        Ok(self.nodes[leafno].known && self.nodes[leafno].value < threshold)
    }

    fn visit(&mut self, idx: usize, low_in: i32, threshold: i32, bio: &mut PacketBioReader) -> (r: Result<i32>)
        requires
            idx < old(self).nodes@.len(),
            old(bio).wf(),
        ensures
            final(bio).data() == old(bio).data(),
            match tt_visit(old(self).nodes@[idx as int], low_in as int, threshold as int, old(bio).state(), old(bio).data()) {
                None => r matches Err(e) && e is DecodeFailed,
                Some((m, l, t)) => r == Ok::<i32, Jp2LamError>(l as i32) && l == l as i32
                    && final(self).nodes@ == old(self).nodes@.update(idx as int, m)
                    && final(bio).state() == t && final(bio).wf(),
            },
    {
        let mut n = self.nodes[idx];
        let mut low = low_in;
        if low > n.low {
            n.low = low;
        } else {
            low = n.low;
        }
        let ghost n1 = n;
        let ghost low1 = low;
        let ghost s1 = bio.state();
        while low < threshold && !n.known
            invariant
                bio.wf(),
                bio.data() == old(bio).data(),
                n.parent == n1.parent,
                n.low == n1.low,
                self.nodes@ == old(self).nodes@,
                idx < old(self).nodes@.len(),
                s1 == old(bio).state(),
                n1 == (TgtNode { low: low1, ..old(self).nodes@[idx as int] }),
                low1 as int == (if low_in > old(self).nodes@[idx as int].low { low_in as int } else { old(self).nodes@[idx as int].low as int }),
                low1 <= low,
                low <= threshold || low == low1,
                tt_inner(n, low as int, threshold as int, bio.state(), bio.data())
                    == tt_inner(n1, low1 as int, threshold as int, s1, bio.data()),
            decreases (threshold - low) * 2 + (if n.known { 0int } else { 1int }),
        {
            let bit = bio.read_bit()?;
            if bit == 1 {
                n.value = low;
                n.known = true;
            } else {
                low = low + 1;
            }
        }
        if n.known && n.value > low {
            low = n.value;
        }
        n.low = low;
        self.nodes.set(idx, n);
        Ok(low)
    }
}

} // verus!

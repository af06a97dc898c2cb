//! Tier-1 coding state and context formation (Annex D): the per-sample flag grid and the
//! zero-coding, sign-coding and magnitude-refinement contexts.
use vstd::prelude::*;
use crate::mq::{T1_CTXNO_MAG, T1_CTXNO_SC, T1_CTXNO_ZC};
use crate::plan_types::BandOrientation;

verus! {

/// Flag bit: the sample is significant.
pub const FLAG_SIG: u8 = 1;
/// Flag bit: the significant sample is negative.
pub const FLAG_NEG: u8 = 2;
/// Flag bit: the sample was coded in the current bit-plane's significance propagation pass.
pub const FLAG_VISITED: u8 = 4;
/// Flag bit: the sample has been through magnitude refinement.
pub const FLAG_REFINED: u8 = 8;

/// Neighbour mask bits: left, right, up, down, then the four diagonals.
pub const NB_LEFT: u8 = 1;
pub const NB_RIGHT: u8 = 2;
pub const NB_UP: u8 = 4;
pub const NB_DOWN: u8 = 8;
pub const NB_UP_LEFT: u8 = 16;
pub const NB_UP_RIGHT: u8 = 32;
pub const NB_DOWN_LEFT: u8 = 64;
pub const NB_DOWN_RIGHT: u8 = 128;

/// Bit `b` (a power of two below 256) of `v` is set.
pub open spec fn has(v: u8, b: u8) -> bool {
    (v / b) % 2 == 1
}

pub open spec fn b2n(b: bool) -> nat {
    if b { 1 } else { 0 }
}

/// Number of significant horizontal neighbours in mask `m`.
pub open spec fn h_count(m: u8) -> nat {
    b2n(has(m, NB_LEFT)) + b2n(has(m, NB_RIGHT))
}

/// Number of significant vertical neighbours in mask `m`.
pub open spec fn v_count(m: u8) -> nat {
    b2n(has(m, NB_UP)) + b2n(has(m, NB_DOWN))
}

/// Number of significant diagonal neighbours in mask `m`.
pub open spec fn d_count(m: u8) -> nat {
    b2n(has(m, NB_UP_LEFT)) + b2n(has(m, NB_UP_RIGHT)) + b2n(has(m, NB_DOWN_LEFT)) + b2n(has(m, NB_DOWN_RIGHT))
}

/// The zero-coding context label of Table D.1 for a sample whose primary direction has `h`
/// significant neighbours, the other direction `v`, and the diagonals `d` (LL, LH and, swapped, HL).
pub open spec fn zc_label_hv(h: nat, v: nat, d: nat) -> nat {
    if h == 2 { 8 }
    else if h == 1 { if v >= 1 { 7 } else if d >= 1 { 6 } else { 5 } }
    else if v == 2 { 4 }
    else if v == 1 { 3 }
    else if d >= 2 { 2 }
    else if d == 1 { 1 }
    else { 0 }
}

/// The zero-coding context label of Table D.1 for the HH subband.
pub open spec fn zc_label_hh(hv: nat, d: nat) -> nat {
    if d >= 3 { 8 }
    else if d == 2 { if hv >= 1 { 7 } else { 6 } }
    else if d == 1 { if hv >= 2 { 5 } else if hv == 1 { 4 } else { 3 } }
    else { if hv >= 2 { 2 } else if hv == 1 { 1 } else { 0 } }
}

/// The zero-coding context of a sample in subband `band` with neighbour mask `m` (Table D.1).
pub open spec fn zc_context(band: BandOrientation, m: u8) -> u8 {
    (T1_CTXNO_ZC + match band {
        BandOrientation::Hl => zc_label_hv(v_count(m), h_count(m), d_count(m)),
        BandOrientation::Hh => zc_label_hh(h_count(m) + v_count(m), d_count(m)),
        _ => zc_label_hv(h_count(m), v_count(m), d_count(m)),
    }) as u8
}

fn bit(v: u8, b: u8) -> (r: u8)
    requires
        b == 1 || b == 2 || b == 4 || b == 8 || b == 16 || b == 32 || b == 64 || b == 128,
    ensures
        r == b2n(has(v, b)),
{
    (v / b) % 2
}

/// The zero-coding context of a sample in subband `band` with neighbour mask `mask`.
pub fn zero_coding_context(band: BandOrientation, mask: u8) -> (c: u8)
    ensures
        c == zc_context(band, mask),
        c <= 8,
{
    let h = bit(mask, NB_LEFT) + bit(mask, NB_RIGHT);
    let v = bit(mask, NB_UP) + bit(mask, NB_DOWN);
    let d = bit(mask, NB_UP_LEFT) + bit(mask, NB_UP_RIGHT) + bit(mask, NB_DOWN_LEFT) + bit(mask, NB_DOWN_RIGHT);
    let label: u8 = match band {
        BandOrientation::Hh => {
            let hv = h + v;
            if d >= 3 { 8 }
            else if d == 2 { if hv >= 1 { 7 } else { 6 } }
            else if d == 1 { if hv >= 2 { 5 } else if hv == 1 { 4 } else { 3 } }
            else { if hv >= 2 { 2 } else if hv == 1 { 1 } else { 0 } }
        },
        _ => {
            let (p, q) = match band {
                BandOrientation::Hl => (v, h),
                _ => (h, v),
            };
            if p == 2 { 8 }
            else if p == 1 { if q >= 1 { 7 } else if d >= 1 { 6 } else { 5 } }
            else if q == 2 { 4 }
            else if q == 1 { 3 }
            else if d >= 2 { 2 }
            else if d == 1 { 1 }
            else { 0 }
        },
    };
    T1_CTXNO_ZC + label
}

/// The sign contribution of one direction: both neighbours' signs summed and clamped to -1..1.
pub open spec fn sign_dir(sig_a: bool, neg_a: bool, sig_b: bool, neg_b: bool) -> int {
    let a: int = if sig_a { if neg_a { -1 } else { 1 } } else { 0 };
    let b: int = if sig_b { if neg_b { -1 } else { 1 } } else { 0 };
    if a + b > 0 { 1 } else if a + b < 0 { -1 } else { 0 }
}

/// The horizontal sign contribution of sign pattern `s` (left: bits 0-1, right: bits 2-3).
pub open spec fn sign_h(s: u8) -> int {
    sign_dir(has(s, 1), has(s, 2), has(s, 4), has(s, 8))
}

/// The vertical sign contribution of sign pattern `s` (up: bits 4-5, down: bits 6-7).
pub open spec fn sign_v(s: u8) -> int {
    sign_dir(has(s, 16), has(s, 32), has(s, 64), has(s, 128))
}

/// The sign-coding context of Table D.3 for the pattern's contributions.
pub open spec fn sc_context(s: u8) -> u8 {
    let h = sign_h(s);
    let v = sign_v(s);
    let label: int = if h == 0 { if v == 0 { 0 } else { 1 } } else if v == 0 { 3 } else if h == v { 4 } else { 2 };
    (T1_CTXNO_SC + label) as u8
}

/// The sign-prediction bit of Table D.3 for the pattern's contributions.
pub open spec fn sc_xor(s: u8) -> u8 {
    let h = sign_h(s);
    let v = sign_v(s);
    if h < 0 || (h == 0 && v < 0) { 1 } else { 0 }
}

fn sign_dir_exec(sig_a: u8, neg_a: u8, sig_b: u8, neg_b: u8) -> (r: i8)
    requires
        sig_a <= 1, neg_a <= 1, sig_b <= 1, neg_b <= 1,
    ensures
        r as int == sign_dir(sig_a == 1, neg_a == 1, sig_b == 1, neg_b == 1),
{
    let a: i8 = if sig_a == 1 { if neg_a == 1 { -1 } else { 1 } } else { 0 };
    let b: i8 = if sig_b == 1 { if neg_b == 1 { -1 } else { 1 } } else { 0 };
    if a + b > 0 { 1 } else if a + b < 0 { -1 } else { 0 }
}

/// The sign-coding context of sign pattern `index`.
pub fn sign_context(index: u8) -> (c: u8)
    ensures
        c == sc_context(index),
        9 <= c <= 13,
{
    let h = sign_dir_exec(bit(index, 1), bit(index, 2), bit(index, 4), bit(index, 8));
    let v = sign_dir_exec(bit(index, 16), bit(index, 32), bit(index, 64), bit(index, 128));
    let label: u8 = if h == 0 { if v == 0 { 0 } else { 1 } } else if v == 0 { 3 } else if h == v { 4 } else { 2 };
    T1_CTXNO_SC + label
}

/// The sign-prediction bit of sign pattern `index`.
pub fn sign_prediction_bit(index: u8) -> (b: u8)
    ensures
        b == sc_xor(index),
        b <= 1,
{
    let h = sign_dir_exec(bit(index, 1), bit(index, 2), bit(index, 4), bit(index, 8));
    let v = sign_dir_exec(bit(index, 16), bit(index, 32), bit(index, 64), bit(index, 128));
    if h < 0 || (h == 0 && v < 0) { 1 } else { 0 }
}

/// Table D.3: the sign-coding context and the sign-prediction bit of every pattern, by its
/// horizontal contribution H and vertical contribution V. The context offset from
/// `T1_CTXNO_SC` is 4 when H and V are both non-zero and equal, 2 when they are non-zero and
/// opposite, 3 when only H is non-zero, 1 when only V is, and 0 when both are zero; the
/// prediction bit is 1 exactly when H is negative, or H is zero and V negative.
pub proof fn lemma_sign_context_table(s: u8)
    ensures
        -1 <= sign_h(s) <= 1,
        -1 <= sign_v(s) <= 1,
        sign_h(s) == 1 && sign_v(s) == 1 ==> sc_context(s) == T1_CTXNO_SC + 4 && sc_xor(s) == 0,
        sign_h(s) == 1 && sign_v(s) == 0 ==> sc_context(s) == T1_CTXNO_SC + 3 && sc_xor(s) == 0,
        sign_h(s) == 1 && sign_v(s) == -1 ==> sc_context(s) == T1_CTXNO_SC + 2 && sc_xor(s) == 0,
        sign_h(s) == 0 && sign_v(s) == 1 ==> sc_context(s) == T1_CTXNO_SC + 1 && sc_xor(s) == 0,
        sign_h(s) == 0 && sign_v(s) == 0 ==> sc_context(s) == T1_CTXNO_SC && sc_xor(s) == 0,
        sign_h(s) == 0 && sign_v(s) == -1 ==> sc_context(s) == T1_CTXNO_SC + 1 && sc_xor(s) == 1,
        sign_h(s) == -1 && sign_v(s) == 1 ==> sc_context(s) == T1_CTXNO_SC + 2 && sc_xor(s) == 1,
        sign_h(s) == -1 && sign_v(s) == 0 ==> sc_context(s) == T1_CTXNO_SC + 3 && sc_xor(s) == 1,
        sign_h(s) == -1 && sign_v(s) == -1 ==> sc_context(s) == T1_CTXNO_SC + 4 && sc_xor(s) == 1,
{
}

/// The contribution of a pair of neighbours is positive when one of them is significant and
/// positive and the other is not significant and negative, negative in the mirror case, and
/// zero otherwise.
pub proof fn lemma_sign_dir_meaning(sig_a: bool, neg_a: bool, sig_b: bool, neg_b: bool)
    ensures
        sign_dir(sig_a, neg_a, sig_b, neg_b) == 1 <==> ((sig_a && !neg_a && !(sig_b && neg_b))
            || (sig_b && !neg_b && !(sig_a && neg_a))),
        sign_dir(sig_a, neg_a, sig_b, neg_b) == -1 <==> ((sig_a && neg_a && !(sig_b && !neg_b))
            || (sig_b && neg_b && !(sig_a && !neg_a))),
{
}

/// The magnitude-refinement context of Table D.4.
pub open spec fn mr_context(has_sig_neighbor: bool, refined: bool) -> u8 {
    if refined { (T1_CTXNO_MAG + 2) as u8 } else if has_sig_neighbor { (T1_CTXNO_MAG + 1) as u8 } else { T1_CTXNO_MAG }
}

/// The magnitude-refinement context of a sample.
pub fn magnitude_context(has_sig_neighbor: bool, refined: bool) -> (c: u8)
    ensures
        c == mr_context(has_sig_neighbor, refined),
        14 <= c <= 16,
{
    if refined { T1_CTXNO_MAG + 2 } else if has_sig_neighbor { T1_CTXNO_MAG + 1 } else { T1_CTXNO_MAG }
}


// ----------------------------------------------------------------------------
// The flag grid
// ----------------------------------------------------------------------------

/// `f` with bit `b` set (left as it is when already set, or when it holds no room for it).
pub open spec fn with_bit(f: u8, b: u8) -> u8 {
    if has(f, b) || f >= 240 { f } else { (f + b) as u8 }
}

/// `f` with bit `b` cleared.
pub open spec fn without_bit(f: u8, b: u8) -> u8 {
    if has(f, b) { (f - b) as u8 } else { f }
}

/// The flags of sample `(x, y)` of a `w`-wide grid of flags.
pub open spec fn cell_at(cells: Seq<u8>, w: nat, x: int, y: int) -> u8 {
    cells[y * w + x]
}

/// Whether the neighbour `(x + dx, y + dy)` lies in a `w` by `h` grid and has flag `b`.
pub open spec fn cells_neighbour_has(cells: Seq<u8>, w: nat, h: nat, x: int, y: int, dx: int, dy: int, b: u8) -> bool {
    let nx = x + dx;
    let ny = y + dy;
    0 <= nx < w && 0 <= ny < h && has(cell_at(cells, w, nx, ny), b)
}

/// The significance mask of the eight neighbours of `(x, y)`, in the `NB_*` bits.
pub open spec fn cells_mask(cells: Seq<u8>, w: nat, h: nat, x: int, y: int) -> u8 {
    (b2n(cells_neighbour_has(cells, w, h, x, y, -1, 0, FLAG_SIG)) + 2 * b2n(cells_neighbour_has(cells, w, h, x, y, 1, 0, FLAG_SIG))
        + 4 * b2n(cells_neighbour_has(cells, w, h, x, y, 0, -1, FLAG_SIG)) + 8 * b2n(cells_neighbour_has(cells, w, h, x, y, 0, 1, FLAG_SIG))
        + 16 * b2n(cells_neighbour_has(cells, w, h, x, y, -1, -1, FLAG_SIG)) + 32 * b2n(cells_neighbour_has(cells, w, h, x, y, 1, -1, FLAG_SIG))
        + 64 * b2n(cells_neighbour_has(cells, w, h, x, y, -1, 1, FLAG_SIG)) + 128 * b2n(cells_neighbour_has(cells, w, h, x, y, 1, 1, FLAG_SIG))) as u8
}

/// A cardinal neighbour is significant and negative.
pub open spec fn cells_negative(cells: Seq<u8>, w: nat, h: nat, x: int, y: int, dx: int, dy: int) -> bool {
    cells_neighbour_has(cells, w, h, x, y, dx, dy, FLAG_SIG) && cells_neighbour_has(cells, w, h, x, y, dx, dy, FLAG_NEG)
}

/// The significance and sign bits of the four cardinal neighbours of `(x, y)`: left, right, up
/// and down in turn.
pub open spec fn cells_cardinal(cells: Seq<u8>, w: nat, h: nat, x: int, y: int) -> u8 {
    (b2n(cells_neighbour_has(cells, w, h, x, y, -1, 0, FLAG_SIG)) + 2 * b2n(cells_negative(cells, w, h, x, y, -1, 0))
        + 4 * b2n(cells_neighbour_has(cells, w, h, x, y, 1, 0, FLAG_SIG)) + 8 * b2n(cells_negative(cells, w, h, x, y, 1, 0))
        + 16 * b2n(cells_neighbour_has(cells, w, h, x, y, 0, -1, FLAG_SIG)) + 32 * b2n(cells_negative(cells, w, h, x, y, 0, -1))
        + 64 * b2n(cells_neighbour_has(cells, w, h, x, y, 0, 1, FLAG_SIG)) + 128 * b2n(cells_negative(cells, w, h, x, y, 0, 1))) as u8
}

/// Samples `k..k + lim` of column `x` are insignificant, not visited, and without significant
/// neighbours.
pub open spec fn cells_stripe_clean(cells: Seq<u8>, w: nat, h: nat, x: int, k: int, lim: int) -> bool {
    forall|y: int| k <= y < k + lim ==> !(has(#[trigger] cell_at(cells, w, x, y), FLAG_SIG))
        && !(has(cell_at(cells, w, x, y), FLAG_VISITED)) && cells_mask(cells, w, h, x, y) == 0
}

/// How many of the first `n` samples are significant.
pub open spec fn sig_total(cells: Seq<u8>, n: nat) -> nat
    decreases n,
{
    if n == 0 { 0 } else { sig_total(cells, (n - 1) as nat) + (if has(cells[n - 1], FLAG_SIG) { 1nat } else { 0nat }) }
}

/// The coding state of every sample of a code-block, row by row.
pub struct FlagGrid {
    width: usize,
    height: usize,
    flags: Vec<u8>,
}

impl FlagGrid {
    pub closed spec fn w(&self) -> nat { self.width as nat }
    pub closed spec fn h(&self) -> nat { self.height as nat }
    /// The flags of every sample, row by row.
    pub closed spec fn cells(&self) -> Seq<u8> { self.flags@ }

    pub open spec fn wf(&self) -> bool {
        self.cells().len() == self.w() * self.h()
    }

    /// The flags of sample `(x, y)`.
    pub open spec fn at(&self, x: int, y: int) -> u8 {
        self.cells()[y * self.w() + x]
    }

    /// Whether the neighbour `(x + dx, y + dy)` lies in the grid and has flag `b`.
    pub open spec fn neighbour_has(&self, x: int, y: int, dx: int, dy: int, b: u8) -> bool {
        cells_neighbour_has(self.cells(), self.w(), self.h(), x, y, dx, dy, b)
    }

    /// The significance mask of the eight neighbours of `(x, y)`, in the `NB_*` bits.
    pub open spec fn neighbour_mask_spec(&self, x: int, y: int) -> u8 {
        cells_mask(self.cells(), self.w(), self.h(), x, y)
    }

    /// The significance and sign bits of the four cardinal neighbours of `(x, y)`.
    pub open spec fn cardinal_sign_spec(&self, x: int, y: int) -> u8 {
        cells_cardinal(self.cells(), self.w(), self.h(), x, y)
    }

    /// Samples `k..k + lim` of column `x` are insignificant, not visited, and without significant
    /// neighbours.
    pub open spec fn stripe_clean_spec(&self, x: int, k: int, lim: int) -> bool {
        cells_stripe_clean(self.cells(), self.w(), self.h(), x, k, lim)
    }

    /// A grid with every sample insignificant.
    pub fn new(width: usize, height: usize) -> (g: Self)
        requires
            width * height <= usize::MAX,
        ensures
            g.wf(),
            g.w() == width,
            g.h() == height,
            forall|i: int| 0 <= i < g.cells().len() ==> #[trigger] g.cells()[i] == 0,
    {
        let n = width * height;
        let mut flags: Vec<u8> = Vec::new();
        let mut i: usize = 0;
        while i < n
            invariant
                i <= n,
                flags@.len() == i,
                forall|j: int| 0 <= j < i ==> #[trigger] flags@[j] == 0,
            decreases n - i,
        {
            flags.push(0);
            i = i + 1;
        }
        FlagGrid { width, height, flags }
    }

    fn idx(&self, x: usize, y: usize) -> (i: usize)
        requires
            self.wf(),
            x < self.w(),
            y < self.h(),
        ensures
            i == y * self.w() + x,
            i < self.cells().len(),
    {
        let n = self.flags.len();
        proof {
            assert(y * self.w() + x < self.w() * self.h()) by (nonlinear_arith)
                requires x < self.w(), y < self.h();
        }
        y * self.width + x
    }

    fn flag(&self, x: usize, y: usize, b: u8) -> (r: bool)
        requires
            self.wf(),
            x < self.w(),
            y < self.h(),
            b == 1 || b == 2 || b == 4 || b == 8,
        ensures
            r == has(self.at(x as int, y as int), b),
    {
        let i = self.idx(x, y);
        (self.flags[i] / b) % 2 == 1
    }

    /// How many samples are significant.
    pub fn significant_count(&self) -> (n: usize)
        requires self.wf(),
        ensures n == sig_total(self.cells(), self.cells().len()),
    {
        let mut n: usize = 0;
        let mut i: usize = 0;
        while i < self.flags.len()
            invariant
                i <= self.flags@.len(),
                n as nat == sig_total(self.flags@, i as nat),
                n <= i,
            decreases self.flags@.len() - i,
        {
            if (self.flags[i] / FLAG_SIG) % 2 == 1 {
                n = n + 1;
            }
            i = i + 1;
        }
        n
    }

    /// The sample is significant.
    pub fn is_significant(&self, x: usize, y: usize) -> (r: bool)
        requires self.wf(), x < self.w(), y < self.h(),
        ensures r == has(self.at(x as int, y as int), FLAG_SIG),
    {
        self.flag(x, y, FLAG_SIG)
    }

    /// The sample was coded in the current significance propagation pass.
    pub fn is_visited(&self, x: usize, y: usize) -> (r: bool)
        requires self.wf(), x < self.w(), y < self.h(),
        ensures r == has(self.at(x as int, y as int), FLAG_VISITED),
    {
        self.flag(x, y, FLAG_VISITED)
    }

    /// The sample has been refined before.
    pub fn has_refinement_history(&self, x: usize, y: usize) -> (r: bool)
        requires self.wf(), x < self.w(), y < self.h(),
        ensures r == has(self.at(x as int, y as int), FLAG_REFINED),
    {
        self.flag(x, y, FLAG_REFINED)
    }

    fn sig_at(&self, x: usize, y: usize, dx: i8, dy: i8) -> (r: u8)
        requires
            self.wf(),
            x < self.w(),
            y < self.h(),
            -1 <= dx <= 1,
            -1 <= dy <= 1,
        ensures
            r <= 1,
            r == b2n(self.neighbour_has(x as int, y as int, dx as int, dy as int, FLAG_SIG)),
    {
        if (dx < 0 && x == 0) || (dy < 0 && y == 0) {
            return 0;
        }
        let nx = if dx < 0 { x - 1 } else if dx > 0 { x + 1 } else { x };
        let ny = if dy < 0 { y - 1 } else if dy > 0 { y + 1 } else { y };
        if nx >= self.width || ny >= self.height {
            return 0;
        }
        if self.flag(nx, ny, FLAG_SIG) { 1 } else { 0 }
    }

    /// Which of the eight neighbours are significant, as a mask of the `NB_*` bits.
    pub fn neighbour_mask(&self, x: usize, y: usize) -> (m: u8)
        requires self.wf(), x < self.w(), y < self.h(),
        ensures m == self.neighbour_mask_spec(x as int, y as int),
    {
        self.sig_at(x, y, -1, 0) + 2 * self.sig_at(x, y, 1, 0) + 4 * self.sig_at(x, y, 0, -1)
            + 8 * self.sig_at(x, y, 0, 1) + 16 * self.sig_at(x, y, -1, -1) + 32 * self.sig_at(x, y, 1, -1)
            + 64 * self.sig_at(x, y, -1, 1) + 128 * self.sig_at(x, y, 1, 1)
    }

    fn neg_at(&self, x: usize, y: usize, dx: i8, dy: i8) -> (r: u8)
        requires
            self.wf(),
            x < self.w(),
            y < self.h(),
            -1 <= dx <= 1,
            -1 <= dy <= 1,
        ensures
            r <= 1,
            r == b2n(self.neighbour_has(x as int, y as int, dx as int, dy as int, FLAG_SIG)
                && self.neighbour_has(x as int, y as int, dx as int, dy as int, FLAG_NEG)),
    {
        if (dx < 0 && x == 0) || (dy < 0 && y == 0) {
            return 0;
        }
        let nx = if dx < 0 { x - 1 } else if dx > 0 { x + 1 } else { x };
        let ny = if dy < 0 { y - 1 } else if dy > 0 { y + 1 } else { y };
        if nx >= self.width || ny >= self.height {
            return 0;
        }
        if self.flag(nx, ny, FLAG_SIG) && self.flag(nx, ny, FLAG_NEG) { 1 } else { 0 }
    }

    /// The sign pattern of the four cardinal neighbours: for left, right, up and down in turn, a
    /// significance bit and a negative-sign bit.
    pub fn cardinal_sign_context(&self, x: usize, y: usize) -> (s: u8)
        requires self.wf(), x < self.w(), y < self.h(),
        ensures s == self.cardinal_sign_spec(x as int, y as int),
    {
        self.sig_at(x, y, -1, 0) + 2 * self.neg_at(x, y, -1, 0) + 4 * self.sig_at(x, y, 1, 0)
            + 8 * self.neg_at(x, y, 1, 0) + 16 * self.sig_at(x, y, 0, -1) + 32 * self.neg_at(x, y, 0, -1)
            + 64 * self.sig_at(x, y, 0, 1) + 128 * self.neg_at(x, y, 0, 1)
    }

    fn set(&mut self, x: usize, y: usize, v: u8)
        requires
            old(self).wf(),
            x < old(self).w(),
            y < old(self).h(),
        ensures
            final(self).wf(),
            final(self).w() == old(self).w(),
            final(self).h() == old(self).h(),
            final(self).cells() == old(self).cells().update(y * old(self).w() + x, v),
    {
        let i = self.idx(x, y);
        self.flags.set(i, v);
    }

    fn add_bit(&mut self, x: usize, y: usize, b: u8)
        requires
            old(self).wf(),
            x < old(self).w(),
            y < old(self).h(),
            b == 1 || b == 2 || b == 4 || b == 8,
        ensures
            final(self).wf(),
            final(self).w() == old(self).w(),
            final(self).h() == old(self).h(),
            final(self).cells() == old(self).cells().update(y * old(self).w() + x, with_bit(old(self).at(x as int, y as int), b)),
    {
        let i = self.idx(x, y);
        let f = self.flags[i];
        if (f / b) % 2 == 0 && f < 240 {
            self.flags.set(i, f + b);
        }
    }

    fn drop_bit(&mut self, x: usize, y: usize, b: u8)
        requires
            old(self).wf(),
            x < old(self).w(),
            y < old(self).h(),
            b == 1 || b == 2 || b == 4 || b == 8,
        ensures
            final(self).wf(),
            final(self).w() == old(self).w(),
            final(self).h() == old(self).h(),
            final(self).cells() == old(self).cells().update(y * old(self).w() + x, without_bit(old(self).at(x as int, y as int), b)),
    {
        let i = self.idx(x, y);
        let f = self.flags[i];
        if (f / b) % 2 == 1 {
            self.flags.set(i, f - b);
        }
    }

    /// Marks the sample as coded in this significance propagation pass.
    pub fn mark_visited(&mut self, x: usize, y: usize)
        requires old(self).wf(), x < old(self).w(), y < old(self).h(),
        ensures final(self).wf(), final(self).w() == old(self).w(), final(self).h() == old(self).h(),
            final(self).cells() == old(self).cells().update(y * old(self).w() + x, with_bit(old(self).at(x as int, y as int), FLAG_VISITED)),
    {
        self.add_bit(x, y, FLAG_VISITED);
    }

    /// Clears the sample's visited mark.
    pub fn clear_visited(&mut self, x: usize, y: usize)
        requires old(self).wf(), x < old(self).w(), y < old(self).h(),
        ensures final(self).wf(), final(self).w() == old(self).w(), final(self).h() == old(self).h(),
            final(self).cells() == old(self).cells().update(y * old(self).w() + x, without_bit(old(self).at(x as int, y as int), FLAG_VISITED)),
    {
        self.drop_bit(x, y, FLAG_VISITED);
    }

    /// Records that the sample has been refined.
    pub fn mark_refined(&mut self, x: usize, y: usize)
        requires old(self).wf(), x < old(self).w(), y < old(self).h(),
        ensures final(self).wf(), final(self).w() == old(self).w(), final(self).h() == old(self).h(),
            final(self).cells() == old(self).cells().update(y * old(self).w() + x, with_bit(old(self).at(x as int, y as int), FLAG_REFINED)),
    {
        self.add_bit(x, y, FLAG_REFINED);
    }

    /// Makes the sample significant with the given sign (1 for negative).
    pub fn mark_significant(&mut self, x: usize, y: usize, sign: u8)
        requires old(self).wf(), x < old(self).w(), y < old(self).h(),
        ensures final(self).wf(), final(self).w() == old(self).w(), final(self).h() == old(self).h(),
            final(self).cells() == old(self).cells().update(y * old(self).w() + x, ({
                let f = with_bit(old(self).at(x as int, y as int), FLAG_SIG);
                if sign != 0 { with_bit(f, FLAG_NEG) } else { f }
            })),
    {
        let ghost c0 = self.cells();
        let ghost i = y * self.w() + x;
        assert(y * self.w() + x < self.w() * self.h()) by (nonlinear_arith)
            requires x < self.w(), y < self.h();
        self.add_bit(x, y, FLAG_SIG);
        let ghost c1 = self.cells();
        assert(self.at(x as int, y as int) == c1[i]);
        if sign != 0 {
            self.add_bit(x, y, FLAG_NEG);
            assert(self.cells() =~= c0.update(i, with_bit(with_bit(c0[i], FLAG_SIG), FLAG_NEG)));
        }
    }

    /// The `lim` samples of column `x` from row `k` are insignificant, not yet coded in this
    /// bit-plane, and without significant neighbours: the condition for run-length coding.
    pub fn stripe_is_clean(&self, x: usize, k: usize, lim: usize) -> (r: bool)
        requires
            self.wf(),
            x < self.w(),
            k + lim <= self.h(),
        ensures
            r == self.stripe_clean_spec(x as int, k as int, lim as int),
    {
        let mut ci: usize = 0;
        while ci < lim
            invariant
                self.wf(),
                x < self.w(),
                k + lim <= self.h(),
                ci <= lim,
                forall|y: int| k <= y < k + ci ==> !(has(#[trigger] cell_at(self.cells(), self.w(), x as int, y), FLAG_SIG))
                    && !(has(cell_at(self.cells(), self.w(), x as int, y), FLAG_VISITED)) && self.neighbour_mask_spec(x as int, y) == 0,
            decreases lim - ci,
        {
            let y = k + ci;
            assert(cell_at(self.cells(), self.w(), x as int, y as int) == self.at(x as int, y as int));
            if self.is_significant(x, y) || self.is_visited(x, y) || self.neighbour_mask(x, y) != 0 {
                return false;
            }
            ci = ci + 1;
        }
        true
    }
}

} // verus!

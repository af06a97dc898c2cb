//! The reversible 5/3 wavelet transform (Annex F.3, F.4) by lifting, in one and two dimensions.
//! The lifting steps are computed with wrapping 32-bit arithmetic, so that each step is undone
//! exactly by its inverse whatever the sample values.
use vstd::prelude::*;
use crate::error::{Jp2LamError, Result, encode_failed};
use crate::text::append_decimal;

verus! {

pub open spec fn wadd(a: i32, b: i32) -> i32 {
    vstd::wrapping::i32_specs::wrapping_add(a, b)
}

pub open spec fn wsub(a: i32, b: i32) -> i32 {
    vstd::wrapping::i32_specs::wrapping_sub(a, b)
}

/// The prediction term `(a + b) >> 1`.
pub open spec fn pred(a: i32, b: i32) -> i32 {
    wadd(a, b) >> 1i32
}

/// The update term `(a + b + 2) >> 2`.
pub open spec fn upd(a: i32, b: i32) -> i32 {
    wadd(wadd(a, b), 2) >> 2i32
}

/// Number of low-pass coefficients of a signal of length `n`.
pub open spec fn sn_of(n: nat) -> nat { (n + 1) / 2 }

/// Number of high-pass coefficients of a signal of length `n`.
pub open spec fn dn_of(n: nat) -> nat { n / 2 }

pub open spec fn min_int(a: int, b: int) -> int { if a < b { a } else { b } }

/// The high-pass coefficients of `x` after the prediction step.
pub open spec fn fwd_high(x: Seq<i32>) -> Seq<i32> {
    let sn = sn_of(x.len());
    Seq::new(dn_of(x.len()), |i: int| wsub(x[2 * i + 1], pred(x[2 * i], x[2 * min_int(i + 1, sn - 1)])))
}

/// The low-pass coefficients of `x` after the update step.
pub open spec fn fwd_low(x: Seq<i32>) -> Seq<i32> {
    let dn = dn_of(x.len());
    let d = fwd_high(x);
    Seq::new(sn_of(x.len()), |i: int| wadd(x[2 * i], upd(d[min_int(if i >= 1 { i - 1 } else { 0 }, dn - 1)], d[min_int(i, dn - 1)])))
}

/// The forward 5/3 transform of a signal starting at an even position: the low-pass
/// coefficients, then the high-pass ones. Signals of length 0 or 1 are left as they are.
pub open spec fn fwd53(x: Seq<i32>) -> Seq<i32> {
    if x.len() <= 1 { x } else { fwd_low(x) + fwd_high(x) }
}

/// The even samples recovered by undoing the update step of `y`.
pub open spec fn inv_even(y: Seq<i32>) -> Seq<i32> {
    let sn = sn_of(y.len());
    let dn = dn_of(y.len());
    Seq::new(sn, |i: int| wsub(y[i], upd(y[sn + min_int(if i >= 1 { i - 1 } else { 0 }, dn - 1)], y[sn + min_int(i, dn - 1)])))
}

/// The inverse 5/3 transform of low-pass then high-pass coefficients.
pub open spec fn inv53(y: Seq<i32>) -> Seq<i32> {
    if y.len() <= 1 {
        y
    } else {
        let sn = sn_of(y.len());
        let e = inv_even(y);
        Seq::new(y.len(), |j: int| if j % 2 == 0 {
            e[j / 2]
        } else {
            wadd(y[sn + j / 2], pred(e[j / 2], e[min_int(j / 2 + 1, sn - 1)]))
        })
    }
}

proof fn lemma_wrap(a: i32, b: i32)
    ensures
        wsub(wadd(a, b), b) == a,
        wadd(wsub(a, b), b) == a,
{
}

/// The inverse 5/3 transform undoes the forward one.
pub proof fn lemma_inv_fwd53(x: Seq<i32>)
    ensures
        inv53(fwd53(x)) == x,
{
    if x.len() > 1 {
        let y = fwd53(x);
        let n = x.len();
        let sn = sn_of(n);
        let dn = dn_of(n);
        assert(y.len() == n);
        assert(y.subrange(0, sn as int) =~= fwd_low(x));
        let e = inv_even(y);
        assert forall|i: int| 0 <= i < sn implies #[trigger] e[i] == x[2 * i] by {
            assert(y[i] == fwd_low(x)[i]);
            let l = min_int(if i >= 1 { i - 1 } else { 0 }, dn - 1);
            let r = min_int(i, dn - 1);
            assert(y[sn + l] == fwd_high(x)[l]);
            assert(y[sn + r] == fwd_high(x)[r]);
            lemma_wrap(x[2 * i], upd(fwd_high(x)[l], fwd_high(x)[r]));
        }
        assert forall|j: int| 0 <= j < n implies #[trigger] inv53(y)[j] == x[j] by {
            if j % 2 == 0 {
                assert(e[j / 2] == x[2 * (j / 2)]);
            } else {
                let i = j / 2;
                assert(y[sn + i] == fwd_high(x)[i]);
                assert(e[i] == x[2 * i]);
                let k = min_int(i + 1, sn - 1);
                assert(e[k] == x[2 * k]);
                lemma_wrap(x[2 * i + 1], pred(x[2 * i], x[2 * k]));
            }
        }
        assert(inv53(y) =~= x);
    }
}


fn pred_exec(a: i32, b: i32) -> (r: i32)
    ensures
        r == pred(a, b),
{
    a.wrapping_add(b) >> 1i32
}

fn upd_exec(a: i32, b: i32) -> (r: i32)
    ensures
        r == upd(a, b),
{
    a.wrapping_add(b).wrapping_add(2) >> 2i32
}

/// The forward 5/3 transform of a signal starting at an even position.
pub fn forward_53_1d(x: &[i32]) -> (y: Vec<i32>)
    ensures
        y@ == fwd53(x@),
{
    let n = x.len();
    let mut out: Vec<i32> = Vec::new();
    if n <= 1 {
        let mut i: usize = 0;
        while i < n
            invariant
                i <= n,
                n == x@.len(),
                out@ == x@.subrange(0, i as int),
            decreases n - i,
        {
            out.push(x[i]);
            i = i + 1;
            assert(out@ =~= x@.subrange(0, i as int));
        }
        assert(x@.subrange(0, n as int) =~= x@);
        return out;
    }
    let sn = n / 2 + n % 2;
    let dn = n / 2;
    let mut high: Vec<i32> = Vec::new();
    let mut i: usize = 0;
    while i < dn
        invariant
            n == x@.len(),
            n >= 2,
            sn == sn_of(n as nat),
            dn == dn_of(n as nat),
            i <= dn,
            high@ == fwd_high(x@).subrange(0, i as int),
        decreases dn - i,
    {
        let r = if i + 1 < sn { i + 1 } else { sn - 1 };
        high.push(x[2 * i + 1].wrapping_sub(pred_exec(x[2 * i], x[2 * r])));
        i = i + 1;
        assert(high@ =~= fwd_high(x@).subrange(0, i as int));
    }
    assert(high@ =~= fwd_high(x@));
    let mut j: usize = 0;
    while j < sn
        invariant
            n == x@.len(),
            n >= 2,
            sn == sn_of(n as nat),
            dn == dn_of(n as nat),
            dn >= 1,
            high@ == fwd_high(x@),
            j <= sn,
            out@ == fwd_low(x@).subrange(0, j as int),
        decreases sn - j,
    {
        let l = if j >= 1 { if j - 1 < dn - 1 { j - 1 } else { dn - 1 } } else { 0 };
        let r = if j < dn - 1 { j } else { dn - 1 };
        out.push(x[2 * j].wrapping_add(upd_exec(high[l], high[r])));
        j = j + 1;
        assert(out@ =~= fwd_low(x@).subrange(0, j as int));
    }
    let mut k: usize = 0;
    let ghost low = out@;
    assert(low =~= fwd_low(x@));
    while k < dn
        invariant
            high@ == fwd_high(x@),
            dn == high@.len(),
            k <= dn,
            out@ == low + high@.subrange(0, k as int),
        decreases dn - k,
    {
        out.push(high[k]);
        k = k + 1;
        assert(out@ =~= low + high@.subrange(0, k as int));
    }
    assert(high@.subrange(0, dn as int) =~= high@);
    out
}

/// The inverse 5/3 transform of low-pass then high-pass coefficients.
pub fn inverse_53_1d(y: &[i32]) -> (x: Vec<i32>)
    ensures
        x@ == inv53(y@),
{
    let n = y.len();
    let mut out: Vec<i32> = Vec::new();
    if n <= 1 {
        let mut i: usize = 0;
        while i < n
            invariant
                i <= n,
                n == y@.len(),
                out@ == y@.subrange(0, i as int),
            decreases n - i,
        {
            out.push(y[i]);
            i = i + 1;
            assert(out@ =~= y@.subrange(0, i as int));
        }
        assert(y@.subrange(0, n as int) =~= y@);
        return out;
    }
    let sn = n / 2 + n % 2;
    let dn = n / 2;
    let mut even: Vec<i32> = Vec::new();
    let mut i: usize = 0;
    while i < sn
        invariant
            n == y@.len(),
            n >= 2,
            sn == sn_of(n as nat),
            dn == dn_of(n as nat),
            i <= sn,
            even@ == inv_even(y@).subrange(0, i as int),
        decreases sn - i,
    {
        let l = if i >= 1 { if i - 1 < dn - 1 { i - 1 } else { dn - 1 } } else { 0 };
        let r = if i < dn - 1 { i } else { dn - 1 };
        even.push(y[i].wrapping_sub(upd_exec(y[sn + l], y[sn + r])));
        i = i + 1;
        assert(even@ =~= inv_even(y@).subrange(0, i as int));
    }
    assert(even@ =~= inv_even(y@));
    let mut j: usize = 0;
    while j < n
        invariant
            n == y@.len(),
            n >= 2,
            sn == sn_of(n as nat),
            dn == dn_of(n as nat),
            even@ == inv_even(y@),
            j <= n,
            out@ == inv53(y@).subrange(0, j as int),
        decreases n - j,
    {
        let h = j / 2;
        if j % 2 == 0 {
            out.push(even[h]);
        } else {
            let r = if h + 1 < sn { h + 1 } else { sn - 1 };
            out.push(y[sn + h].wrapping_add(pred_exec(even[h], even[r])));
        }
        j = j + 1;
        assert(out@ =~= inv53(y@).subrange(0, j as int));
    }
    assert(out@ =~= inv53(y@));
    out
}


// ----------------------------------------------------------------------------
// Two dimensions
// ----------------------------------------------------------------------------

/// The 1-D transform, forward or inverse.
pub open spec fn t53(x: Seq<i32>, inverse: bool) -> Seq<i32> {
    if inverse { inv53(x) } else { fwd53(x) }
}

/// Reconstruction levels keep the number of samples.
proof fn lemma_inv_levels_len(d: Seq<i32>, w: nat, h: nat, i: nat)
    ensures
        inv_levels(d, w, h, i).len() == d.len(),
    decreases i,
{
    if i > 0 {
        let rw = halve(w, (i - 1) as nat);
        let rh = halve(h, (i - 1) as nat);
        lemma_inv_levels_len(level_inv(d, w, rw, rh), w, h, (i - 1) as nat);
    }
}

/// The inverse 2-D transform keeps the number of samples.
pub proof fn lemma_dwt_inverse_len(d: Seq<i32>, w: nat, h: nat, levels: nat)
    ensures
        dwt_inverse(d, w, h, levels).len() == d.len(),
{
    if w > 0 && h > 0 {
        lemma_inv_levels_len(d, w, h, levels);
    }
}

/// Decomposition levels keep the number of samples.
proof fn lemma_fwd_levels_len(d: Seq<i32>, w: nat, h: nat, i: nat, levels: nat)
    ensures
        fwd_levels(d, w, h, i, levels).len() == d.len(),
    decreases levels - i,
{
    if i < levels {
        lemma_fwd_levels_len(level_fwd(d, w, halve(w, i), halve(h, i)), w, h, i + 1, levels);
    }
}

/// The forward 2-D transform keeps the number of samples.
pub proof fn lemma_dwt_forward_len(d: Seq<i32>, w: nat, h: nat, levels: nat)
    ensures
        dwt_forward(d, w, h, levels).len() == d.len(),
{
    if w > 0 && h > 0 {
        lemma_fwd_levels_len(d, w, h, 0, levels);
    }
}

/// Position `j` of a row-major grid of width `w` lies in its top-left `rw` by `rh` region.
pub open spec fn in_region(j: int, w: nat, rw: nat, rh: nat) -> bool {
    w > 0 && j % (w as int) < rw && j / (w as int) < rh
}

/// The first `rw` samples of row `y`.
pub open spec fn row_of(d: Seq<i32>, w: nat, y: int, rw: nat) -> Seq<i32> {
    Seq::new(rw, |x: int| d[y * w + x])
}

/// The first `rh` samples of column `x`.
pub open spec fn col_of(d: Seq<i32>, w: nat, x: int, rh: nat) -> Seq<i32> {
    Seq::new(rh, |y: int| d[y * w + x])
}

/// Every row of the region transformed.
pub open spec fn map_rows(d: Seq<i32>, w: nat, rw: nat, rh: nat, inverse: bool) -> Seq<i32> {
    Seq::new(d.len(), |j: int| if in_region(j, w, rw, rh) {
        t53(row_of(d, w, j / (w as int), rw), inverse)[j % (w as int)]
    } else {
        d[j]
    })
}

/// Every column of the region transformed.
pub open spec fn map_cols(d: Seq<i32>, w: nat, rw: nat, rh: nat, inverse: bool) -> Seq<i32> {
    Seq::new(d.len(), |j: int| if in_region(j, w, rw, rh) {
        t53(col_of(d, w, j % (w as int), rh), inverse)[j / (w as int)]
    } else {
        d[j]
    })
}

/// One decomposition level on the region: the columns, then the rows (F.4.8).
pub open spec fn level_fwd(d: Seq<i32>, w: nat, rw: nat, rh: nat) -> Seq<i32> {
    map_rows(map_cols(d, w, rw, rh, false), w, rw, rh, false)
}

/// One reconstruction level on the region: the rows, then the columns.
pub open spec fn level_inv(d: Seq<i32>, w: nat, rw: nat, rh: nat) -> Seq<i32> {
    map_cols(map_rows(d, w, rw, rh, true), w, rw, rh, true)
}

/// `v` halved `k` times, rounding up.
pub open spec fn halve(v: nat, k: nat) -> nat
    decreases k,
{
    if k == 0 { v } else { (halve(v, (k - 1) as nat) + 1) / 2 }
}

/// Decomposition levels `i` to `levels - 1` of a `w` by `h` image, each on the image halved `i` times.
pub open spec fn fwd_levels(d: Seq<i32>, w: nat, h: nat, i: nat, levels: nat) -> Seq<i32>
    decreases levels - i,
{
    if i >= levels { d } else { fwd_levels(level_fwd(d, w, halve(w, i), halve(h, i)), w, h, i + 1, levels) }
}

/// Reconstruction levels `i - 1` down to 0.
pub open spec fn inv_levels(d: Seq<i32>, w: nat, h: nat, i: nat) -> Seq<i32>
    decreases i,
{
    if i == 0 { d } else { inv_levels(level_inv(d, w, halve(w, (i - 1) as nat), halve(h, (i - 1) as nat)), w, h, (i - 1) as nat) }
}

/// The forward 2-D transform with `levels` decompositions of a `w` by `h` image, row by row.
pub open spec fn dwt_forward(d: Seq<i32>, w: nat, h: nat, levels: nat) -> Seq<i32> {
    if w == 0 || h == 0 { d } else { fwd_levels(d, w, h, 0, levels) }
}

/// The inverse 2-D transform.
pub open spec fn dwt_inverse(d: Seq<i32>, w: nat, h: nat, levels: nat) -> Seq<i32> {
    if w == 0 || h == 0 { d } else { inv_levels(d, w, h, levels) }
}

proof fn lemma_pos(y: int, x: int, w: int)
    requires
        0 <= x < w,
        0 <= y,
    ensures
        (y * w + x) / w == y,
        (y * w + x) % w == x,
{
    vstd::arithmetic::div_mod::lemma_fundamental_div_mod_converse(y * w + x, w, y, x);
}

proof fn lemma_split(j: int, w: int)
    requires
        0 <= j,
        w > 0,
    ensures
        j == (j / w) * w + j % w,
        0 <= j % w < w,
        0 <= j / w,
{
    vstd::arithmetic::div_mod::lemma_fundamental_div_mod(j, w);
    assert((j / w) * w == w * (j / w)) by (nonlinear_arith);
    vstd::arithmetic::div_mod::lemma_mod_pos_bound(j, w);
    vstd::arithmetic::div_mod::lemma_div_pos_is_pos(j, w);
}

proof fn lemma_rows_roundtrip(d: Seq<i32>, w: nat, rw: nat, rh: nat)
    requires
        rw <= w,
        rh * w <= d.len(),
    ensures
        map_rows(map_rows(d, w, rw, rh, false), w, rw, rh, true) == d,
{
    let f = map_rows(d, w, rw, rh, false);
    let g = map_rows(f, w, rw, rh, true);
    assert forall|j: int| 0 <= j < d.len() implies #[trigger] g[j] == d[j] by {
        if in_region(j, w, rw, rh) {
            let y = j / (w as int);
            let x = j % (w as int);
            lemma_split(j, w as int);
            assert(row_of(f, w, y, rw) =~= fwd53(row_of(d, w, y, rw))) by {
                assert forall|t: int| 0 <= t < rw implies #[trigger] row_of(f, w, y, rw)[t] == fwd53(row_of(d, w, y, rw))[t] by {
                    lemma_pos(y, t, w as int);
                    assert(y * w + t < d.len()) by (nonlinear_arith)
                        requires y < rh, t < rw, rw <= w, rh * w <= d.len(), 0 <= t;
                    assert(in_region(y * w + t, w, rw, rh));
                }
                assert(fwd53(row_of(d, w, y, rw)).len() == rw) by {
                    if rw > 1 {
                        assert(fwd53(row_of(d, w, y, rw)) == fwd_low(row_of(d, w, y, rw)) + fwd_high(row_of(d, w, y, rw)));
                    }
                }
            }
            lemma_inv_fwd53(row_of(d, w, y, rw));
        }
    }
    assert(g =~= d);
}

proof fn lemma_cols_roundtrip(d: Seq<i32>, w: nat, rw: nat, rh: nat)
    requires
        rw <= w,
        rh * w <= d.len(),
    ensures
        map_cols(map_cols(d, w, rw, rh, false), w, rw, rh, true) == d,
{
    let f = map_cols(d, w, rw, rh, false);
    let g = map_cols(f, w, rw, rh, true);
    assert forall|j: int| 0 <= j < d.len() implies #[trigger] g[j] == d[j] by {
        if in_region(j, w, rw, rh) {
            let y = j / (w as int);
            let x = j % (w as int);
            lemma_split(j, w as int);
            assert(col_of(f, w, x, rh) =~= fwd53(col_of(d, w, x, rh))) by {
                assert forall|t: int| 0 <= t < rh implies #[trigger] col_of(f, w, x, rh)[t] == fwd53(col_of(d, w, x, rh))[t] by {
                    lemma_pos(t, x, w as int);
                    assert(t * w + x < d.len()) by (nonlinear_arith)
                        requires t < rh, x < rw, rw <= w, rh * w <= d.len(), 0 <= x, 0 <= t;
                    assert(in_region(t * w + x, w, rw, rh));
                }
                assert(fwd53(col_of(d, w, x, rh)).len() == rh) by {
                    if rh > 1 {
                        assert(fwd53(col_of(d, w, x, rh)) == fwd_low(col_of(d, w, x, rh)) + fwd_high(col_of(d, w, x, rh)));
                    }
                }
            }
            lemma_inv_fwd53(col_of(d, w, x, rh));
        }
    }
    assert(g =~= d);
}

/// One reconstruction level undoes one decomposition level.
pub proof fn lemma_level_roundtrip(d: Seq<i32>, w: nat, rw: nat, rh: nat)
    requires
        rw <= w,
        rh * w <= d.len(),
    ensures
        level_inv(level_fwd(d, w, rw, rh), w, rw, rh) == d,
{
    let c = map_cols(d, w, rw, rh, false);
    assert(c.len() == d.len());
    lemma_rows_roundtrip(c, w, rw, rh);
    lemma_cols_roundtrip(d, w, rw, rh);
}

proof fn lemma_halve_le(v: nat, k: nat)
    ensures
        halve(v, k) <= v,
    decreases k,
{
    if k > 0 {
        lemma_halve_le(v, (k - 1) as nat);
    }
}

proof fn lemma_levels_roundtrip(d: Seq<i32>, w: nat, h: nat, k: nat, levels: nat)
    requires
        k <= levels,
        d.len() == w * h,
    ensures
        inv_levels(fwd_levels(d, w, h, k, levels), w, h, levels) == inv_levels(d, w, h, k),
    decreases levels - k,
{
    if k < levels {
        let f = level_fwd(d, w, halve(w, k), halve(h, k));
        assert(f.len() == d.len());
        lemma_levels_roundtrip(f, w, h, k + 1, levels);
        lemma_halve_le(w, k);
        lemma_halve_le(h, k);
        assert(halve(h, k) * w <= d.len()) by (nonlinear_arith)
            requires halve(h, k) <= h, d.len() == w * h;
        lemma_level_roundtrip(d, w, halve(w, k), halve(h, k));
    }
}

/// The inverse 2-D transform undoes the forward one, whatever the samples and the number of
/// levels: the lossless path gives back exactly what it was given.
pub proof fn lemma_dwt_roundtrip(d: Seq<i32>, w: nat, h: nat, levels: nat)
    requires
        d.len() == w * h,
    ensures
        dwt_inverse(dwt_forward(d, w, h, levels), w, h, levels) == d,
{
    if w > 0 && h > 0 {
        lemma_levels_roundtrip(d, w, h, 0, levels);
    }
}


/// Rows before `y` of the region transformed, and the first `x` samples of row `y`.
pub open spec fn rows_done(d: Seq<i32>, w: nat, rw: nat, rh: nat, inverse: bool, y: int, x: int) -> Seq<i32> {
    Seq::new(d.len(), |j: int| if in_region(j, w, rw, rh) && (j / (w as int) < y || (j / (w as int) == y && j % (w as int) < x)) {
        t53(row_of(d, w, j / (w as int), rw), inverse)[j % (w as int)]
    } else {
        d[j]
    })
}

/// Columns before `x` of the region transformed, and the first `y` samples of column `x`.
pub open spec fn cols_done(d: Seq<i32>, w: nat, rw: nat, rh: nat, inverse: bool, x: int, y: int) -> Seq<i32> {
    Seq::new(d.len(), |j: int| if in_region(j, w, rw, rh) && (j % (w as int) < x || (j % (w as int) == x && j / (w as int) < y)) {
        t53(col_of(d, w, j % (w as int), rh), inverse)[j / (w as int)]
    } else {
        d[j]
    })
}

proof fn lemma_t53_len(x: Seq<i32>, inverse: bool)
    ensures
        t53(x, inverse).len() == x.len(),
{
    if x.len() > 1 && !inverse {
        assert(fwd53(x) == fwd_low(x) + fwd_high(x));
    }
}

fn transform_1d(x: &[i32], inverse: bool) -> (y: Vec<i32>)
    ensures
        y@ == t53(x@, inverse),
        y@.len() == x@.len(),
{
    proof { lemma_t53_len(x@, inverse); }
    if inverse { inverse_53_1d(x) } else { forward_53_1d(x) }
}

/// Transforms every row of the `rw` by `rh` region of a grid of width `w`.
fn rows_pass(data: &mut Vec<i32>, w: usize, rw: usize, rh: usize, inverse: bool)
    requires
        rw <= w,
        rh * w <= old(data)@.len(),
    ensures
        final(data)@ == map_rows(old(data)@, w as nat, rw as nat, rh as nat, inverse),
{
    let ghost d0 = data@;
    let n = data.len();
    proof {
        assert(rows_done(d0, w as nat, rw as nat, rh as nat, inverse, 0, 0) =~= d0) by {
            assert forall|j: int| 0 <= j < d0.len() implies #[trigger] rows_done(d0, w as nat, rw as nat, rh as nat, inverse, 0, 0)[j] == d0[j] by {
                if w > 0 { lemma_split(j, w as int); }
            }
        }
    }
    let mut y: usize = 0;
    while y < rh
        invariant
            rw <= w,
            rh * w <= d0.len(),
            n == d0.len(),
            y <= rh,
            data@ == rows_done(d0, w as nat, rw as nat, rh as nat, inverse, y as int, 0),
        decreases rh - y,
    {
        proof {
            assert(y * w + rw <= rh * w) by (nonlinear_arith) requires y < rh, rw <= w;
        }
        let base = y * w;
        let mut row: Vec<i32> = Vec::new();
        let mut t: usize = 0;
        while t < rw
            invariant
                rw <= w,
                rh * w <= d0.len(),
                n == d0.len(),
                y < rh,
                base == y * w,
                base + rw <= rh * w,
                t <= rw,
                data@ == rows_done(d0, w as nat, rw as nat, rh as nat, inverse, y as int, 0),
                row@ == row_of(d0, w as nat, y as int, rw as nat).subrange(0, t as int),
            decreases rw - t,
        {
            proof {
                lemma_pos(y as int, t as int, w as int);
                assert(!(in_region(base + t, w as nat, rw as nat, rh as nat) && ((base + t) / (w as int) < y
                    || ((base + t) / (w as int) == y && (base + t) % (w as int) < 0))));
            }
            row.push(data[base + t]);
            t = t + 1;
            assert(row@ =~= row_of(d0, w as nat, y as int, rw as nat).subrange(0, t as int));
        }
        assert(row@ =~= row_of(d0, w as nat, y as int, rw as nat));
        let out = transform_1d(&row, inverse);
        let mut x: usize = 0;
        while x < rw
            invariant
                rw <= w,
                rh * w <= d0.len(),
                n == d0.len(),
                y < rh,
                base == y * w,
                base + rw <= rh * w,
                x <= rw,
                out@ == t53(row_of(d0, w as nat, y as int, rw as nat), inverse),
                out@.len() == rw,
                data@ == rows_done(d0, w as nat, rw as nat, rh as nat, inverse, y as int, x as int),
            decreases rw - x,
        {
            data.set(base + x, out[x]);
            x = x + 1;
            proof {
                assert forall|j: int| 0 <= j < d0.len() implies #[trigger] data@[j]
                    == rows_done(d0, w as nat, rw as nat, rh as nat, inverse, y as int, x as int)[j] by {
                    lemma_split(j, w as int);
                    lemma_pos(y as int, (x - 1) as int, w as int);
                }
                assert(data@ =~= rows_done(d0, w as nat, rw as nat, rh as nat, inverse, y as int, x as int));
            }
        }
        y = y + 1;
        proof {
            assert forall|j: int| 0 <= j < d0.len() implies #[trigger] data@[j]
                == rows_done(d0, w as nat, rw as nat, rh as nat, inverse, y as int, 0)[j] by {
                if w > 0 { lemma_split(j, w as int); }
            }
            assert(data@ =~= rows_done(d0, w as nat, rw as nat, rh as nat, inverse, y as int, 0));
        }
    }
    proof {
        assert(data@ =~= map_rows(d0, w as nat, rw as nat, rh as nat, inverse));
    }
}


/// Transforms every column of the `rw` by `rh` region of a grid of width `w`.
fn cols_pass(data: &mut Vec<i32>, w: usize, rw: usize, rh: usize, inverse: bool)
    requires
        rw <= w,
        rh * w <= old(data)@.len(),
    ensures
        final(data)@ == map_cols(old(data)@, w as nat, rw as nat, rh as nat, inverse),
{
    let ghost d0 = data@;
    let n = data.len();
    proof {
        assert(cols_done(d0, w as nat, rw as nat, rh as nat, inverse, 0, 0) =~= d0) by {
            assert forall|j: int| 0 <= j < d0.len() implies #[trigger] cols_done(d0, w as nat, rw as nat, rh as nat, inverse, 0, 0)[j] == d0[j] by {
                if w > 0 { lemma_split(j, w as int); }
            }
        }
    }
    let mut x: usize = 0;
    while x < rw
        invariant
            rw <= w,
            rh * w <= d0.len(),
            n == d0.len(),
            x <= rw,
            data@ == cols_done(d0, w as nat, rw as nat, rh as nat, inverse, x as int, 0),
        decreases rw - x,
    {
        let mut col: Vec<i32> = Vec::new();
        let mut t: usize = 0;
        while t < rh
            invariant
                rw <= w,
                rh * w <= d0.len(),
                n == d0.len(),
                x < rw,
                t <= rh,
                data@ == cols_done(d0, w as nat, rw as nat, rh as nat, inverse, x as int, 0),
                col@ == col_of(d0, w as nat, x as int, rh as nat).subrange(0, t as int),
            decreases rh - t,
        {
            proof {
                assert(t * w + x < rh * w) by (nonlinear_arith) requires t < rh, x < rw, rw <= w;
                lemma_pos(t as int, x as int, w as int);
            }
            col.push(data[t * w + x]);
            t = t + 1;
            assert(col@ =~= col_of(d0, w as nat, x as int, rh as nat).subrange(0, t as int));
        }
        assert(col@ =~= col_of(d0, w as nat, x as int, rh as nat));
        let out = transform_1d(&col, inverse);
        let mut y: usize = 0;
        while y < rh
            invariant
                rw <= w,
                rh * w <= d0.len(),
                n == d0.len(),
                x < rw,
                y <= rh,
                out@ == t53(col_of(d0, w as nat, x as int, rh as nat), inverse),
                out@.len() == rh,
                data@ == cols_done(d0, w as nat, rw as nat, rh as nat, inverse, x as int, y as int),
            decreases rh - y,
        {
            proof {
                assert(y * w + x < rh * w) by (nonlinear_arith) requires y < rh, x < rw, rw <= w;
            }
            data.set(y * w + x, out[y]);
            y = y + 1;
            proof {
                assert forall|j: int| 0 <= j < d0.len() implies #[trigger] data@[j]
                    == cols_done(d0, w as nat, rw as nat, rh as nat, inverse, x as int, y as int)[j] by {
                    lemma_split(j, w as int);
                    lemma_pos((y - 1) as int, x as int, w as int);
                }
                assert(data@ =~= cols_done(d0, w as nat, rw as nat, rh as nat, inverse, x as int, y as int));
            }
        }
        x = x + 1;
        proof {
            assert forall|j: int| 0 <= j < d0.len() implies #[trigger] data@[j]
                == cols_done(d0, w as nat, rw as nat, rh as nat, inverse, x as int, 0)[j] by {
                if w > 0 { lemma_split(j, w as int); }
            }
            assert(data@ =~= cols_done(d0, w as nat, rw as nat, rh as nat, inverse, x as int, 0));
        }
    }
    proof {
        assert(data@ =~= map_cols(d0, w as nat, rw as nat, rh as nat, inverse));
    }
}

fn halve_exec(v: usize, k: u8) -> (r: usize)
    ensures
        r == halve(v as nat, k as nat),
        r <= v,
{
    let mut r = v;
    let mut i: u8 = 0;
    while i < k
        invariant
            i <= k,
            r == halve(v as nat, i as nat),
            r <= v,
        decreases k - i,
    {
        r = r / 2 + r % 2;
        i = i + 1;
    }
    r
}


fn check_area(len: usize, width: usize, height: usize) -> (r: Result<()>)
    ensures
        r is Ok <==> width * height <= usize::MAX && len == width * height,
        r matches Err(e) ==> e is EncodeFailed,
{
    let area = match width.checked_mul(height) {
        Some(a) => a,
        None => { return Err(encode_failed("DWT image dimensions overflow")); },
    };
    if len != area {
        let mut m = String::from_str("DWT input length ");
        append_decimal(&mut m, len as u64);
        m.append(" did not match image area ");
        append_decimal(&mut m, area as u64);
        return Err(Jp2LamError::EncodeFailed(m));
    }
    Ok(())
}

/// The forward 5/3 transform of a `width` by `height` image in place, with `levels`
/// decompositions (F.4.8): each level transforms the columns, then the rows, of the current
/// low-pass region.
pub fn forward_53_2d_in_place(data: &mut Vec<i32>, width: usize, height: usize, levels: u8) -> (r: Result<()>)
    ensures
        r is Ok <==> width * height <= usize::MAX && old(data)@.len() == width * height,
        r is Ok ==> final(data)@ == dwt_forward(old(data)@, width as nat, height as nat, levels as nat),
        r is Err ==> final(data)@ == old(data)@,
        r matches Err(e) ==> e is EncodeFailed,
{
    check_area(data.len(), width, height)?;
    if width == 0 || height == 0 || levels == 0 {
        return Ok(());
    }
    let ghost target = fwd_levels(data@, width as nat, height as nat, 0, levels as nat);
    let mut i: u8 = 0;
    while i < levels
        invariant
            data@.len() == width * height,
            width > 0,
            height > 0,
            i <= levels,
            fwd_levels(data@, width as nat, height as nat, i as nat, levels as nat) == target,
        decreases levels - i,
    {
        let rw = halve_exec(width, i);
        let rh = halve_exec(height, i);
        assert(rh * width <= data@.len()) by (nonlinear_arith)
            requires rh <= height, data@.len() == width * height;
        cols_pass(data, width, rw, rh, false);
        rows_pass(data, width, rw, rh, false);
        i = i + 1;
    }
    Ok(())
}

/// The inverse 5/3 transform of a `width` by `height` image in place, undoing `levels`
/// decompositions from the lowest resolution up: the rows, then the columns, of each region.
pub fn inverse_53_2d_in_place(data: &mut Vec<i32>, width: usize, height: usize, levels: u8) -> (r: Result<()>)
    ensures
        r is Ok <==> width * height <= usize::MAX && old(data)@.len() == width * height,
        r is Ok ==> final(data)@ == dwt_inverse(old(data)@, width as nat, height as nat, levels as nat),
        r is Err ==> final(data)@ == old(data)@,
        r matches Err(e) ==> e is EncodeFailed,
{
    check_area(data.len(), width, height)?;
    if width == 0 || height == 0 || levels == 0 {
        return Ok(());
    }
    let ghost target = inv_levels(data@, width as nat, height as nat, levels as nat);
    let mut i: u8 = levels;
    while i > 0
        invariant
            data@.len() == width * height,
            width > 0,
            height > 0,
            i <= levels,
            inv_levels(data@, width as nat, height as nat, i as nat) == target,
        decreases i,
    {
        let rw = halve_exec(width, i - 1);
        let rh = halve_exec(height, i - 1);
        assert(rh * width <= data@.len()) by (nonlinear_arith)
            requires rh <= height, data@.len() == width * height;
        rows_pass(data, width, rw, rh, true);
        cols_pass(data, width, rw, rh, true);
        i = i - 1;
    }
    Ok(())
}

} // verus!

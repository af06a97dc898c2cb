//! The reversible colour transform (Annex G.2) on DC-shifted samples.
use vstd::prelude::*;

verus! {

/// The forward reversible colour transform of one sample: `(Y, Db, Dr)`.
pub open spec fn rct_forward(r: i32, g: i32, b: i32) -> (i32, i32, i32) {
    (((r + 2 * g + b) as i32) >> 2i32, (b - g) as i32, (r - g) as i32)
}

/// The inverse reversible colour transform of one sample: `(R, G, B)`.
pub open spec fn rct_inverse(y: i32, db: i32, dr: i32) -> (i32, i32, i32) {
    let g = vstd::wrapping::i32_specs::wrapping_sub(y, vstd::wrapping::i32_specs::wrapping_add(db, dr) >> 2i32);
    (vstd::wrapping::i32_specs::wrapping_add(dr, g), g, vstd::wrapping::i32_specs::wrapping_add(db, g))
}

/// Samples small enough for the forward transform not to overflow.
pub open spec fn rct_range(v: i32) -> bool {
    -0x1000_0000 <= v <= 0x1000_0000
}

/// The inverse reversible colour transform gives back the samples that the forward one was given.
pub proof fn lemma_rct_roundtrip(r: i32, g: i32, b: i32)
    requires
        rct_range(r),
        rct_range(g),
        rct_range(b),
    ensures
        ({
            let (y, db, dr) = rct_forward(r, g, b);
            rct_inverse(y, db, dr) == (r, g, b)
        }),
{
    let x = (b - g + r - g) as i32;
    let s = (x + 4 * g) as i32;
    assert(s == (r + 2 * g + b) as i32);
    assert(s >> 2i32 == (x >> 2i32) + g) by (bit_vector)
        requires
            -0x4000_0000 <= x <= 0x4000_0000,
            -0x1000_0000 <= g <= 0x1000_0000,
            s == x + 4 * g;
}

/// The forward reversible colour transform of one sample.
pub fn forward_rct_sample(r: i32, g: i32, b: i32) -> (t: (i32, i32, i32))
    requires
        rct_range(r),
        rct_range(g),
        rct_range(b),
    ensures
        t == rct_forward(r, g, b),
{
    ((r + 2 * g + b) >> 2i32, b - g, r - g)
}

/// The inverse reversible colour transform of one sample.
pub fn inverse_rct_sample(y: i32, db: i32, dr: i32) -> (t: (i32, i32, i32))
    ensures
        t == rct_inverse(y, db, dr),
{
    let g = y.wrapping_sub(db.wrapping_add(dr) >> 2i32);
    (dr.wrapping_add(g), g, db.wrapping_add(g))
}

} // verus!

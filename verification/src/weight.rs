//! Fixed-point weights.
//!
//! A weight is a `u32` counted in millionths: `ONE` stands for 1.0.  Products
//! of weights are kept exactly in wider integers until they are brought back
//! to a weight, so a nonzero belief never turns into zero by rounding.

use vstd::prelude::*;

verus! {

/// The weight 1.0.
pub const ONE: u32 = 1_000_000;

/// The smallest weight that a nonzero compatibility may have (0.0001).
pub const FLOOR_WEIGHT: u32 = 100;

/// The constant term of the smoothing step (0.005).
pub const DRIFT: u32 = 5_000;

/// The share of the old belief kept by the smoothing step, in thousandths.
pub const KEEP: u32 = 975;

/// The share of the new compatibility taken by the smoothing step, in
/// thousandths.
pub const PULL: u32 = 20;

/// The scale by which a product of four weights is cut down to a strength.
pub const STRENGTH_SCALE: u128 = 1_000_000_000_000;

/// Brings a compatibility counted in units of `1 / (ONE * ONE)` back to a
/// weight: zero stays zero, and anything else is kept between `FLOOR_WEIGHT`
/// and the largest weight.
pub open spec fn settle(raw: nat) -> u32 {
    if raw == 0 {
        0
    } else if raw / (ONE as nat) < FLOOR_WEIGHT {
        FLOOR_WEIGHT
    } else if raw / (ONE as nat) > u32::MAX {
        u32::MAX
    } else {
        (raw / (ONE as nat)) as u32
    }
}

/// Computes `settle(raw)`.
pub fn settle_weight(raw: u128) -> (w: u32)
    ensures
        w == settle(raw as nat),
        (w == 0) == (raw == 0),
        raw != 0 ==> w >= FLOOR_WEIGHT,
{
    if raw == 0 {
        return 0;
    }
    let q: u128 = raw / (ONE as u128);
    if q < FLOOR_WEIGHT as u128 {
        FLOOR_WEIGHT
    } else if q > u32::MAX as u128 {
        u32::MAX
    } else {
        q as u32
    }
}

/// The smoothing step: a belief `old` next to an undecided neighbour moves a
/// little towards the compatibility `modifier`, and never below `DRIFT`.
pub open spec fn blend(old: u32, modifier: u32) -> u32 {
    let v = DRIFT + (old * KEEP + modifier * PULL) / 1000;
    if v > u32::MAX { u32::MAX } else { v as u32 }
}

/// Computes `blend(old, modifier)`.
pub fn blend_weight(old: u32, modifier: u32) -> (w: u32)
    ensures
        w == blend(old, modifier),
        w >= DRIFT,
{
    assert(old * KEEP <= 0xffff_ffff * 975 && modifier * PULL <= 0xffff_ffff * 20) by (nonlinear_arith)
        requires
            KEEP == 975,
            PULL == 20,
            old <= 0xffff_ffff,
            modifier <= 0xffff_ffff,
    ;
    let kept: u64 = (old as u64) * (KEEP as u64);
    let pulled: u64 = (modifier as u64) * (PULL as u64);
    let mixed: u64 = (kept + pulled) / 1000;
    let v: u64 = DRIFT as u64 + mixed;
    if v > u32::MAX as u64 {
        u32::MAX
    } else {
        v as u32
    }
}

/// The exact product of four weights.
pub open spec fn product4(f0: u32, f1: u32, f2: u32, f3: u32) -> nat {
    (f0 as nat) * (f1 as nat) * (f2 as nat) * (f3 as nat)
}

/// A product of four weights is nonzero exactly when each of them is, and it
/// fits in 128 bits.
pub proof fn lemma_product4(f0: u32, f1: u32, f2: u32, f3: u32)
    ensures
        (product4(f0, f1, f2, f3) == 0) == (f0 == 0 || f1 == 0 || f2 == 0 || f3 == 0),
        product4(f0, f1, f2, f3) <= u128::MAX,
        (f0 as nat) * (f1 as nat) <= 0xffff_fffe_0000_0001,
        (f0 as nat) * (f1 as nat) * (f2 as nat) <= 0xffff_fffd_0000_0002_ffff_ffff,
{
    let a = f0 as nat;
    let b = f1 as nat;
    let c = f2 as nat;
    let d = f3 as nat;
    assert(a * b <= 0xffff_ffff * 0xffff_ffff) by (nonlinear_arith)
        requires
            a <= 0xffff_ffff,
            b <= 0xffff_ffff,
    ;
    assert((a * b == 0) == (a == 0 || b == 0)) by (nonlinear_arith);
    let ab = a * b;
    assert(ab * c <= 0xffff_fffe_0000_0001 * 0xffff_ffff) by (nonlinear_arith)
        requires
            ab <= 0xffff_fffe_0000_0001,
            c <= 0xffff_ffff,
    ;
    assert((ab * c == 0) == (ab == 0 || c == 0)) by (nonlinear_arith);
    let abc = ab * c;
    assert(abc * d <= 0xffff_fffd_0000_0002_ffff_ffff * 0xffff_ffff) by (nonlinear_arith)
        requires
            abc <= 0xffff_fffd_0000_0002_ffff_ffff,
            d <= 0xffff_ffff,
    ;
    assert((abc * d == 0) == (abc == 0 || d == 0)) by (nonlinear_arith);
}

/// Computes the exact product of four weights.
pub fn multiply4(f0: u32, f1: u32, f2: u32, f3: u32) -> (p: u128)
    ensures
        p == product4(f0, f1, f2, f3),
        (p == 0) == (f0 == 0 || f1 == 0 || f2 == 0 || f3 == 0),
{
    proof {
        lemma_product4(f0, f1, f2, f3);
    }
    let ab: u128 = f0 as u128 * f1 as u128;
    let abc: u128 = ab * f2 as u128;
    abc * f3 as u128
}

/// Cuts an exact product of four weights down to 64 bits: zero stays zero,
/// and anything else is kept between 1 and the largest `u64`.
pub open spec fn strength(product: nat) -> u64 {
    if product == 0 {
        0
    } else if product / (STRENGTH_SCALE as nat) == 0 {
        1
    } else if product / (STRENGTH_SCALE as nat) > u64::MAX {
        u64::MAX
    } else {
        (product / (STRENGTH_SCALE as nat)) as u64
    }
}

/// Computes `strength(product)`.
pub fn reduce_strength(product: u128) -> (s: u64)
    ensures
        s == strength(product as nat),
        (s == 0) == (product == 0),
{
    if product == 0 {
        return 0;
    }
    let q: u128 = product / STRENGTH_SCALE;
    if q == 0 {
        1
    } else if q > u64::MAX as u128 {
        u64::MAX
    } else {
        q as u64
    }
}

} // verus!

//! The aspect-ratio snapper.
//!
//! Given one image's dimensions and the candidate set, pick the candidate
//! whose aspect ratio is closest to the image's (first in set order on
//! ties), refuse images smaller than the chosen target, and compute the
//! aspect-preserving intermediate resize dimensions from which the final
//! crop is taken.
//!
//! Aspect ratios are compared exactly: the distance of candidate `(w, h)`
//! from image ratio `W / H` is `|W*h - w*H| / (H*h)`, and two distances are
//! compared by cross-multiplying the positive denominators away, so no
//! rounding enters the selection.

use vstd::prelude::*;
use crate::resset::ResolutionSet;

verus! {

/// Absolute difference.
pub open spec fn abs_diff(a: int, b: int) -> int {
    if a >= b {
        a - b
    } else {
        b - a
    }
}

/// Numerator of the aspect distance |W/H - w/h| over the common denominator
/// H*h.
pub open spec fn ratio_diff_num(img_w: int, img_h: int, w: int, h: int) -> int {
    abs_diff(img_w * h, w * img_h)
}

/// Candidate `c1` matches the image's aspect ratio strictly better than
/// `c2`: |W/H - w1/h1| < |W/H - w2/h2|, compared by cross-multiplication.
pub open spec fn closer(img_w: int, img_h: int, c1: (u32, u32), c2: (u32, u32)) -> bool {
    ratio_diff_num(img_w, img_h, c1.0 as int, c1.1 as int) * (c2.1 as int) < ratio_diff_num(
        img_w,
        img_h,
        c2.0 as int,
        c2.1 as int,
    ) * (c1.1 as int)
}

/// Index of the selected candidate, scanning from `i` with current best `b`:
/// a stable minimum, replaced only by a strictly better candidate.
pub open spec fn best_from(img_w: int, img_h: int, s: Seq<(u32, u32)>, i: int, b: int) -> int
    decreases s.len() - i when 0 <= i <= s.len()
{
    if i >= s.len() {
        b
    } else if closer(img_w, img_h, s[i], s[b]) {
        best_from(img_w, img_h, s, i + 1, i)
    } else {
        best_from(img_w, img_h, s, i + 1, b)
    }
}

/// Index of the candidate the snapper selects: the first one with minimal
/// aspect distance, in the set's fixed order.
pub open spec fn best_idx(img_w: int, img_h: int, s: Seq<(u32, u32)>) -> int {
    best_from(img_w, img_h, s, 1, 0)
}

/// Rounding division: a/b rounded to the nearest integer, halves up.
pub open spec fn round_div(a: int, b: int) -> int
    recommends
        b >= 1,
{
    (2 * a + b) / (2 * b)
}

/// Transitivity of the cross-multiplied ratio comparison: if candidate `i`
/// is strictly closer than `b`, and `j` is no closer than `b`, then `i` is
/// strictly closer than `j`.
proof fn lemma_better_trans(di: int, hi: int, db: int, hb: int, dj: int, hj: int)
    requires
        hi > 0,
        hb > 0,
        hj > 0,
        di * hb < db * hi,
        dj * hb >= db * hj,
    ensures
        di * hj < dj * hi,
{
    assert((dj * hb) * hi >= (db * hj) * hi) by (nonlinear_arith)
        requires
            hi > 0,
            dj * hb >= db * hj,
    ;
    assert((db * hj) * hi == (db * hi) * hj) by (nonlinear_arith);
    assert((db * hi) * hj > (di * hb) * hj) by (nonlinear_arith)
        requires
            hj > 0,
            di * hb < db * hi,
    ;
    assert((di * hb) * hj == (di * hj) * hb) by (nonlinear_arith);
    assert((dj * hb) * hi == (dj * hi) * hb) by (nonlinear_arith);
    assert((dj * hi) * hb > (di * hj) * hb);
    assert(di * hj < dj * hi) by (nonlinear_arith)
        requires
            hb > 0,
            (dj * hi) * hb > (di * hj) * hb,
    ;
}

/// Error of the snapper: the source image is smaller than the chosen target
/// in at least one dimension, and upscaling past the source is disallowed.
#[derive(Debug)]
pub enum SnapError {
    TooSmall,
}

/// The chosen target and the aspect-preserving intermediate resize size.
#[derive(Debug)]
pub struct SnapResult {
    /// Width of the selected candidate resolution.
    pub target_w: u32,
    /// Height of the selected candidate resolution.
    pub target_h: u32,
    /// Width to resize to before cropping.
    pub resize_w: u32,
    /// Height to resize to before cropping.
    pub resize_h: u32,
}

/// |img_w * h - w * img_h|, the aspect distance numerator, exactly.
fn diff_num_exec(img_w: u32, img_h: u32, w: u32, h: u32) -> (r: u64)
    ensures
        r as int == ratio_diff_num(img_w as int, img_h as int, w as int, h as int),
{
    proof {
        assert((img_w as int) * (h as int) <= 0xFFFF_FFFFu64 * 0xFFFF_FFFFu64
            && (w as int) * (img_h as int) <= 0xFFFF_FFFFu64 * 0xFFFF_FFFFu64
            && (img_w as int) * (h as int) >= 0 && (w as int) * (img_h as int) >= 0)
            by (nonlinear_arith)
            requires
                img_w <= 0xFFFF_FFFFu64 && img_h <= 0xFFFF_FFFFu64 && w <= 0xFFFF_FFFFu64 && h
                    <= 0xFFFF_FFFFu64,
        ;
    }
    let a: u64 = (img_w as u64) * (h as u64);
    let b: u64 = (w as u64) * (img_h as u64);
    if a >= b {
        a - b
    } else {
        b - a
    }
}

/// True exactly when candidate `(w1, h1)` is strictly closer to the image's
/// aspect ratio than `(w2, h2)`.
fn closer_exec(img_w: u32, img_h: u32, w1: u32, h1: u32, w2: u32, h2: u32) -> (r: bool)
    ensures
        r == closer(img_w as int, img_h as int, (w1, h1), (w2, h2)),
{
    let d1 = diff_num_exec(img_w, img_h, w1, h1);
    let d2 = diff_num_exec(img_w, img_h, w2, h2);
    proof {
        assert((d1 as int) * (h2 as int) <= 0xFFFF_FFFF_FFFF_FFFFu128 * 0xFFFF_FFFFu128 && (
        d2 as int) * (h1 as int) <= 0xFFFF_FFFF_FFFF_FFFFu128 * 0xFFFF_FFFFu128)
            by (nonlinear_arith)
            requires
                d1 <= 0xFFFF_FFFF_FFFF_FFFFu128 && d2 <= 0xFFFF_FFFF_FFFF_FFFFu128 && h1
                    <= 0xFFFF_FFFFu128 && h2 <= 0xFFFF_FFFFu128,
        ;
    }
    (d1 as u128) * (h2 as u128) < (d2 as u128) * (h1 as u128)
}

/// Selects the best-fitting target for an image of `img_w` by `img_h` and
/// computes the intermediate resize dimensions.
///
/// The selected candidate is the first in set order with minimal aspect
/// distance.  The call fails exactly when the image is narrower or shorter
/// than that candidate.  On success the intermediate size preserves the
/// image's aspect ratio up to rounding, covers the target box, and stays
/// within the source dimensions: the constrained axis matches the target
/// exactly and the other axis is `round(scale)` of the source.
pub fn snap(img_w: u32, img_h: u32, set: &ResolutionSet) -> (r: Result<SnapResult, SnapError>)
    requires
        img_w > 0,
        img_h > 0,
        set.wf(),
    ensures
        ({
            let k = best_idx(img_w as int, img_h as int, set@);
            let vw = set@[k].0;
            let vh = set@[k].1;
            &&& 0 <= k < set@.len()
            &&& forall|j: int|
                0 <= j < set@.len() ==> !closer(img_w as int, img_h as int, set@[j], set@[k])
            &&& forall|j: int| 0 <= j < k ==> closer(img_w as int, img_h as int, set@[k], set@[j])
            &&& (r is Err <==> img_w < vw || img_h < vh)
            &&& (r matches Ok(sr) ==> {
                &&& sr.target_w == vw
                &&& sr.target_h == vh
                &&& (if (img_w as int) * (vh as int) > (vw as int) * (img_h as int) {
                    sr.resize_h == vh && sr.resize_w as int == round_div(
                        (img_w as int) * (vh as int),
                        img_h as int,
                    )
                } else {
                    sr.resize_w == vw && sr.resize_h as int == round_div(
                        (vw as int) * (img_h as int),
                        img_w as int,
                    )
                })
                &&& sr.resize_w >= vw
                &&& sr.resize_h >= vh
                &&& sr.resize_w <= img_w
                &&& sr.resize_h <= img_h
            })
        }),
{
    let pairs = set.as_pairs();
    let n = pairs.len();
    let ghost s = set@;
    let mut best: usize = 0;
    let mut i: usize = 1;
    while i < n
        invariant
            1 <= i <= n,
            n == s.len(),
            s == set@,
            set.wf(),
            best < i,
            pairs@ == s,
            best_idx(img_w as int, img_h as int, s) == best_from(
                img_w as int,
                img_h as int,
                s,
                i as int,
                best as int,
            ),
            forall|j: int|
                0 <= j < i ==> !closer(img_w as int, img_h as int, s[j], s[best as int]),
            forall|j: int| 0 <= j < best ==> closer(img_w as int, img_h as int, s[best as int], s[j]),
        decreases n - i,
    {
        let (wi, hi) = pairs[i];
        let (wb, hb) = pairs[best];
        if closer_exec(img_w, img_h, wi, hi, wb, hb) {
            proof {
                let iw = img_w as int;
                let ih = img_h as int;
                let di = ratio_diff_num(iw, ih, s[i as int].0 as int, s[i as int].1 as int);
                let db = ratio_diff_num(iw, ih, s[best as int].0 as int, s[best as int].1 as int);
                assert forall|j: int| 0 <= j < i + 1 implies !closer(iw, ih, s[j], s[i as int]) by {
                    if j < i {
                        let dj = ratio_diff_num(iw, ih, s[j].0 as int, s[j].1 as int);
                        if closer(iw, ih, s[j], s[i as int]) {
                            lemma_better_trans(
                                di,
                                s[i as int].1 as int,
                                db,
                                s[best as int].1 as int,
                                dj,
                                s[j].1 as int,
                            );
                        }
                    }
                };
                assert forall|j: int| 0 <= j < i implies closer(iw, ih, s[i as int], s[j]) by {
                    let dj = ratio_diff_num(iw, ih, s[j].0 as int, s[j].1 as int);
                    if j != best {
                        lemma_better_trans(
                            di,
                            s[i as int].1 as int,
                            db,
                            s[best as int].1 as int,
                            dj,
                            s[j].1 as int,
                        );
                    }
                };
            }
            best = i;
        }
        i = i + 1;
    }
    let (vw, vh) = pairs[best];
    if img_w < vw || img_h < vh {
        return Err(SnapError::TooSmall);
    }
    proof {
        assert((img_w as int) * (vh as int) <= 0xFFFF_FFFFu64 * 0xFFFF_FFFFu64 && (img_w as int) * (
        vh as int) >= 0 && (vw as int) * (img_h as int) <= 0xFFFF_FFFFu64 * 0xFFFF_FFFFu64 && (
        vw as int) * (img_h as int) >= 0) by (nonlinear_arith)
            requires
                img_w <= 0xFFFF_FFFFu64 && img_h <= 0xFFFF_FFFFu64 && vw <= 0xFFFF_FFFFu64 && vh
                    <= 0xFFFF_FFFFu64,
        ;
    }
    let cross_img: u64 = (img_w as u64) * (vh as u64);
    let cross_tgt: u64 = (vw as u64) * (img_h as u64);
    if cross_img > cross_tgt {
        // The image is relatively wider: hold the height at the target's and
        // scale the width.
        let rw = round_div_exec(cross_img, img_h);
        proof {
            assert((vw as int) * (img_h as int) < (img_w as int) * (vh as int));
            assert((img_w as int) * (vh as int) <= (img_w as int) * (img_h as int))
                by (nonlinear_arith)
                requires
                    img_w >= 0,
                    vh <= img_h,
            ;
            lemma_round_div_bounds(
                (img_w as int) * (vh as int),
                img_h as int,
                vw as int,
                img_w as int,
            );
        }
        Ok(SnapResult { target_w: vw, target_h: vh, resize_w: rw as u32, resize_h: vh })
    } else {
        let rh = round_div_exec(cross_tgt, img_w);
        proof {
            assert(cross_img as int == (img_w as int) * (vh as int));
            assert(cross_tgt as int == (vw as int) * (img_h as int));
            assert((vh as int) * (img_w as int) <= (vw as int) * (img_h as int))
                by (nonlinear_arith)
                requires
                    (img_w as int) * (vh as int) <= (vw as int) * (img_h as int),
            ;
            assert((vw as int) * (img_h as int) <= (img_w as int) * (img_h as int))
                by (nonlinear_arith)
                requires
                    img_h >= 0,
                    vw <= img_w,
            ;
            lemma_round_div_bounds(
                (vw as int) * (img_h as int),
                img_w as int,
                vh as int,
                img_h as int,
            );
        }
        Ok(SnapResult { target_w: vw, target_h: vh, resize_w: vw, resize_h: rh as u32 })
    }
}

/// round_div(a, b) exactly, for values in range.
fn round_div_exec(a: u64, b: u32) -> (r: u64)
    requires
        b >= 1,
    ensures
        r as int == round_div(a as int, b as int),
{
    let num: u128 = 2 * (a as u128) + (b as u128);
    let den: u128 = 2 * (b as u128);
    let q = num / den;
    proof {
        lemma_round_div_le_num(a as int, b as int);
    }
    q as u64
}

/// The rounded quotient stays at most the numerator (so it fits u64).
proof fn lemma_round_div_le_num(a: int, b: int)
    requires
        a >= 0,
        b >= 1,
    ensures
        0 <= round_div(a, b) <= a,
{
    broadcast use vstd::arithmetic::div_mod::lemma_div_is_ordered, vstd::arithmetic::div_mod::lemma_multiply_divide_lt;

    assert(2 * a + b < (2 * b) * (a + 1)) by (nonlinear_arith)
        requires
            a >= 0,
            b >= 1,
    ;
    assert((2 * a + b) / (2 * b) < a + 1);
    assert(0 <= (2 * a + b) / (2 * b)) by {
        assert((2 * b) * 0 <= 2 * a + b);
        vstd::arithmetic::div_mod::lemma_div_multiples_vanish(0, 2 * b);
        assert(((2 * b) * 0) / (2 * b) == 0);
    };
}

/// Bounds of the rounding division as the snapper uses it: when
/// `lo * b <= a <= hi * b`, the rounded quotient of `a / b` lies in
/// `[lo, hi]`.
proof fn lemma_round_div_bounds(a: int, b: int, lo: int, hi: int)
    requires
        b >= 1,
        0 <= lo,
        lo * b <= a,
        a <= hi * b,
    ensures
        lo <= round_div(a, b) <= hi,
{
    broadcast use vstd::arithmetic::div_mod::lemma_div_is_ordered, vstd::arithmetic::div_mod::lemma_multiply_divide_lt, vstd::arithmetic::div_mod::lemma_div_by_multiple;

    assert(lo * (2 * b) <= 2 * a + b) by (nonlinear_arith)
        requires
            b >= 1,
            lo * b <= a,
    ;
    assert((lo * (2 * b)) / (2 * b) == lo);
    assert((lo * (2 * b)) / (2 * b) <= (2 * a + b) / (2 * b));
    assert(2 * a + b < (2 * b) * (hi + 1)) by (nonlinear_arith)
        requires
            b >= 1,
            a <= hi * b,
    ;
    assert((2 * a + b) / (2 * b) < hi + 1);
}

} // verus!

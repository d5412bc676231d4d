//! The integer geometry of portrait scoring: the subject box.

use vstd::prelude::*;

verus! {

/// A rectangle of the preview, in pixels.
#[derive(Clone, Copy, Debug, PartialEq, Eq, Structural)]
pub struct SubjectRoi {
    pub x: u32,
    pub y: u32,
    pub w: u32,
    pub h: u32,
}

/// `v` clamped below by `lo` and above by `hi` (`lo` applied first, as `max(lo).min(hi)`).
pub open spec fn clamp_max_min(v: int, lo: int, hi: int) -> int {
    let a = if v > lo { v } else { lo };
    if a < hi { a } else { hi }
}

/// The fallback subject box: two fifths of each side (at least 8 pixels, at
/// most the frame), centred horizontally and placed three tenths of the way down.
pub open spec fn upper_center_roi(w: u32, h: u32) -> SubjectRoi {
    let cw = clamp_max_min(w * 2 / 5, 8, w as int);
    let ch = clamp_max_min(h * 2 / 5, 8, h as int);
    SubjectRoi {
        x: ((w - cw) / 2) as u32,
        y: ((h - ch) * 3 / 10) as u32,
        w: cw as u32,
        h: ch as u32,
    }
}

/// The default upper-centre subject box for a `w` by `h` frame.
pub fn default_upper_center_roi(w: u32, h: u32) -> (r: SubjectRoi)
    requires
        w <= u32::MAX / 2,
        h <= u32::MAX / 3,
    ensures
        r == upper_center_roi(w, h),
        r.x + r.w <= w || w < 8,
        r.y + r.h <= h || h < 8,
{
    let cw = {
        let a = w * 2 / 5;
        let b = if a > 8 { a } else { 8 };
        if b < w { b } else { w }
    };
    let ch = {
        let a = h * 2 / 5;
        let b = if a > 8 { a } else { 8 };
        if b < h { b } else { h }
    };
    SubjectRoi {
        x: w.saturating_sub(cw) / 2,
        y: h.saturating_sub(ch) * 3 / 10,
        w: cw,
        h: ch,
    }
}

/// The size of the windows searched for the subject: two fifths of each
/// side, at least 16 pixels and at most the frame.
pub open spec fn search_box(w: u32, h: u32) -> (int, int) {
    (clamp_max_min(w * 2 / 5, 16, w as int), clamp_max_min(h * 2 / 5, 16, h as int))
}

/// Offset of the `i`-th of `steps` window positions spread evenly over `0..=max`.
pub open spec fn grid_pos(i: int, max: int, steps: int) -> int {
    if steps == 1 {
        0
    } else {
        i * max / (steps - 1)
    }
}

/// Number of window positions along an axis with `max` pixels of play:
/// `n`, or a single one when the window fills the axis.
pub open spec fn grid_steps(max: int, n: int) -> int {
    if max == 0 {
        1
    } else {
        n
    }
}

/// The `k`-th window position, row by row: up to five across and four down.
pub open spec fn window_at(w: u32, h: u32, k: int) -> (int, int) {
    let (bw, bh) = search_box(w, h);
    let xs = grid_steps(w - bw, 5);
    let ys = grid_steps(h - bh, 4);
    (grid_pos(k % xs, w - bw, xs), grid_pos(k / xs, h - bh, ys))
}

/// The windows searched for the subject in a `w` by `h` preview: their size,
/// and their top-left corners in search order. Previews under 32 pixels on
/// a side are not searched.
pub fn roi_search_windows(w: u32, h: u32) -> (r: Option<(u32, u32, Vec<(u32, u32)>)>)
    requires
        w * 2 <= u32::MAX,
        h * 2 <= u32::MAX,
        4 * (w - search_box(w, h).0) <= u32::MAX,
        3 * (h - search_box(w, h).1) <= u32::MAX,
    ensures
        r is None <==> (w < 32 || h < 32),
        r matches Some(t) ==> {
            let (bw, bh) = search_box(w, h);
            let xs = grid_steps(w - bw, 5);
            let ys = grid_steps(h - bh, 4);
            &&& t.0 == bw && t.1 == bh
            &&& t.2@.len() == xs * ys
            &&& forall|k: int| 0 <= k < t.2@.len() ==> ((#[trigger] t.2@[k]).0 as int, t.2@[k].1 as int) == window_at(
                w,
                h,
                k,
            )
        },
{
    if w < 32 || h < 32 {
        return None;
    }
    let bw = {
        let a = w * 2 / 5;
        let b = if a > 16 { a } else { 16 };
        if b < w { b } else { w }
    };
    let bh = {
        let a = h * 2 / 5;
        let b = if a > 16 { a } else { 16 };
        if b < h { b } else { h }
    };
    let max_x = w - bw;
    let max_y = h - bh;
    let xs: u32 = if max_x == 0 { 1 } else { 5 };
    let ys: u32 = if max_y == 0 { 1 } else { 4 };
    let mut out: Vec<(u32, u32)> = Vec::new();
    let mut yi: u32 = 0;
    while yi < ys
        invariant
            bw as int == search_box(w, h).0,
            bh as int == search_box(w, h).1,
            max_x == w - bw,
            max_y == h - bh,
            xs as int == grid_steps(max_x as int, 5),
            ys as int == grid_steps(max_y as int, 4),
            4 * max_x <= u32::MAX,
            3 * max_y <= u32::MAX,
            yi <= ys,
            out@.len() == yi * xs,
            forall|k: int| 0 <= k < out@.len() ==> ((#[trigger] out@[k]).0 as int, out@[k].1 as int) == window_at(
                w,
                h,
                k,
            ),
        decreases ys - yi,
    {
        proof {
            assert(yi * max_y <= 3 * max_y) by (nonlinear_arith)
                requires
                    yi <= 3,
            ;
        }
        let y = if ys == 1 { 0 } else { yi * max_y / (ys - 1) };
        let mut xi: u32 = 0;
        while xi < xs
            invariant
                bw as int == search_box(w, h).0,
                bh as int == search_box(w, h).1,
                max_x == w - bw,
                max_y == h - bh,
                xs as int == grid_steps(max_x as int, 5),
                ys as int == grid_steps(max_y as int, 4),
                4 * max_x <= u32::MAX,
                yi < ys,
                y as int == grid_pos(yi as int, max_y as int, ys as int),
                xi <= xs,
                out@.len() == yi * xs + xi,
                forall|k: int| 0 <= k < out@.len() ==> ((#[trigger] out@[k]).0 as int, out@[k].1 as int) == window_at(
                    w,
                    h,
                    k,
                ),
            decreases xs - xi,
        {
            proof {
                assert(xi * max_x <= 4 * max_x) by (nonlinear_arith)
                    requires
                        xi <= 4,
                ;
            }
            let x = if xs == 1 { 0 } else { xi * max_x / (xs - 1) };
            proof {
                let k = yi * xs + xi;
                assert(k % (xs as int) == xi as int && k / (xs as int) == yi as int) by (nonlinear_arith)
                    requires
                        k == yi * xs + xi,
                        0 <= xi < xs,
                        0 <= yi,
                ;
            }
            out.push((x, y));
            xi = xi + 1;
        }
        proof {
            assert(out@.len() == (yi + 1) * xs) by (nonlinear_arith)
                requires
                    out@.len() == yi * xs + xs,
            ;
        }
        yi = yi + 1;
    }
    Some((bw, bh, out))
}

} // verus!

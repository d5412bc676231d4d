//! The integer steps of perceptual hashing: the difference hash of a
//! downscaled 9x8 luma image, and the luminance range used to stretch an
//! image before hashing.

use vstd::prelude::*;

verus! {

/// Bit `i` of `x`.
pub open spec fn bit(x: u64, i: nat) -> bool {
    (x >> (i as u64)) & 1 == 1
}

/// The dHash comparison for bit `i`: in row `i / 8`, column `i % 8` is
/// brighter than its right neighbour (pixels are row-major, 9 per row).
pub open spec fn dhash_cond(p: Seq<u8>, i: nat) -> bool {
    p[((i / 8) * 9 + i % 8) as int] > p[((i / 8) * 9 + i % 8 + 1) as int]
}

/// Difference hash of a 9x8 luma image given row-major: bit `y * 8 + x`
/// is set when pixel `(x, y)` is brighter than pixel `(x + 1, y)`.
pub fn dhash_bits(pixels: &[u8]) -> (h: u64)
    requires
        pixels@.len() == 72,
    ensures
        forall|i: nat| i < 64 ==> (#[trigger] bit(h, i) <==> dhash_cond(pixels@, i)),
{
    let mut hash: u64 = 0;
    let mut b: u64 = 0;
    proof {
        assert forall|i: nat| i < 64 implies !#[trigger] bit(0u64, i) by {
            let iu = i as u64;
            assert((0u64 >> iu) & 1 == 0) by (bit_vector);
        }
    }
    let mut y: usize = 0;
    while y < 8
        invariant
            pixels@.len() == 72,
            y <= 8,
            b == y * 8,
            forall|i: nat| i < b ==> (#[trigger] bit(hash, i) <==> dhash_cond(pixels@, i)),
            forall|i: nat| b <= i < 64 ==> !#[trigger] bit(hash, i),
        decreases 8 - y,
    {
        let mut x: usize = 0;
        while x < 8
            invariant
                pixels@.len() == 72,
                y < 8,
                x <= 8,
                b == y * 8 + x,
                forall|i: nat| i < b ==> (#[trigger] bit(hash, i) <==> dhash_cond(pixels@, i)),
                forall|i: nat| b <= i < 64 ==> !#[trigger] bit(hash, i),
            decreases 8 - x,
        {
            let left = pixels[y * 9 + x];
            let right = pixels[y * 9 + x + 1];
            let old_hash = hash;
            if left > right {
                hash = hash | (1u64 << b);
                proof {
                    assert forall|i: nat| i < 64 implies #[trigger] bit(hash, i) == (bit(old_hash, i) || i == b) by {
                        let iu = i as u64;
                        assert(((old_hash | (1u64 << b)) >> iu) & 1 == 1 <==> ((old_hash >> iu) & 1 == 1 || iu == b))
                            by (bit_vector)
                            requires
                                iu < 64,
                                b < 64,
                        ;
                    }
                }
            }
            proof {
                assert((b / 8) * 9 + b % 8 == y * 9 + x);
            }
            b = b + 1;
            x = x + 1;
        }
        y = y + 1;
    }
    hash
}

/// Number of pixels with luma at most `v`.
pub open spec fn count_upto(hist: Seq<u64>, v: int) -> int
    decreases v + 1,
{
    if v < 0 {
        0
    } else {
        count_upto(hist, v - 1) + hist[v]
    }
}

/// Number of pixels with luma at least `v`.
pub open spec fn count_from(hist: Seq<u64>, v: int) -> int
    decreases 256 - v,
{
    if v > 255 {
        0
    } else {
        count_from(hist, v + 1) + hist[v]
    }
}

/// The smallest luma whose cumulative count reaches `tail`, if any.
pub open spec fn low_cut(hist: Seq<u64>, tail: int, v: int) -> int
    decreases 256 - v,
{
    if v > 255 {
        0
    } else if count_upto(hist, v) >= tail {
        v
    } else {
        low_cut(hist, tail, v + 1)
    }
}

/// The largest luma whose count from the top reaches `tail`, if any.
pub open spec fn high_cut(hist: Seq<u64>, tail: int, v: int) -> int
    decreases v + 1,
{
    if v < 0 {
        255
    } else if count_from(hist, v) >= tail {
        v
    } else {
        high_cut(hist, tail, v - 1)
    }
}

/// The luma range kept when stretching: the extreme one percent (at least
/// one pixel) is clipped at each end. Nothing is stretched when the image is
/// empty or the range is degenerate.
pub open spec fn stretch_range(hist: Seq<u64>, total: u64) -> Option<(int, int)> {
    let tail = if total / 100 > 1 { (total / 100) as int } else { 1 };
    let low = low_cut(hist, tail, 0);
    let high = high_cut(hist, tail, 255);
    if total == 0 || high <= low {
        None
    } else {
        Some((low, high))
    }
}

/// Compute the stretch range from a 256-bin luma histogram whose counts sum to `total`.
pub fn luma_stretch_range(hist: &[u64], total: u64) -> (r: Option<(u8, u8)>)
    requires
        hist@.len() == 256,
        count_upto(hist@, 255) == total,
    ensures
        r matches Some((lo, hi)) ==> stretch_range(hist@, total) == Some((lo as int, hi as int)),
        r is None ==> stretch_range(hist@, total) is None,
{
    if total == 0 {
        return None;
    }
    let tail: u64 = if total / 100 > 1 { total / 100 } else { 1 };
    let mut cumulative: u64 = 0;
    let mut low: usize = 0;
    let mut v: usize = 0;
    let mut found = false;
    while v < 256 && !found
        invariant
            hist@.len() == 256,
            count_upto(hist@, 255) == total,
            total > 0,
            tail == (if total / 100 > 1 { total / 100 } else { 1 }),
            v <= 256,
            !found ==> low == 0,
            !found ==> cumulative == count_upto(hist@, v - 1),
            !found ==> low_cut(hist@, tail as int, v as int) == low_cut(hist@, tail as int, 0),
            found ==> low as int == low_cut(hist@, tail as int, 0) && low < 256,
        decreases 256 - v + (if found { 0int } else { 1int }),
    {
        proof {
            lemma_count_upto_le(hist@, v as int, 255);
        }
        cumulative = cumulative + hist[v];
        if cumulative >= tail {
            low = v;
            found = true;
        } else {
            v = v + 1;
        }
    }
    let mut high: usize = 255;
    let mut acc: u64 = 0;
    let mut w: usize = 256;
    let mut found_high = false;
    while w > 0 && !found_high
        invariant
            hist@.len() == 256,
            count_upto(hist@, 255) == total,
            total > 0,
            tail == (if total / 100 > 1 { total / 100 } else { 1 }),
            w <= 256,
            !found_high ==> high == 255,
            !found_high ==> acc == count_from(hist@, w as int),
            !found_high ==> high_cut(hist@, tail as int, w - 1) == high_cut(hist@, tail as int, 255),
            found_high ==> high as int == high_cut(hist@, tail as int, 255) && high < 256,
        decreases w + (if found_high { 0int } else { 1int }),
    {
        proof {
            lemma_count_from_le(hist@, w - 1);
        }
        acc = acc + hist[w - 1];
        if acc >= tail {
            high = w - 1;
            found_high = true;
        } else {
            w = w - 1;
        }
    }
    proof {
        if !found {
            assert(low_cut(hist@, tail as int, 256) == 0);
        }
        if !found_high {
            assert(high_cut(hist@, tail as int, -1) == 255);
        }
    }
    if high <= low {
        return None;
    }
    Some((low as u8, high as u8))
}

proof fn lemma_count_upto_le(hist: Seq<u64>, v: int, w: int)
    requires
        -1 <= v <= w <= 255,
        hist.len() == 256,
    ensures
        count_upto(hist, v) + (if v + 1 <= w { hist[v + 1] as int } else { 0 }) <= count_upto(hist, w),
        0 <= count_upto(hist, v),
    decreases w - v,
{
    if v < w {
        lemma_count_upto_le(hist, v + 1, w);
    }
    lemma_count_upto_nonneg(hist, v);
}

proof fn lemma_count_upto_nonneg(hist: Seq<u64>, v: int)
    requires
        v <= 255,
        hist.len() == 256,
    ensures
        0 <= count_upto(hist, v),
    decreases v + 1,
{
    if v >= 0 {
        lemma_count_upto_nonneg(hist, v - 1);
    }
}

proof fn lemma_count_from_le(hist: Seq<u64>, v: int)
    requires
        0 <= v <= 255,
        hist.len() == 256,
    ensures
        count_from(hist, v) <= count_upto(hist, 255),
{
    lemma_split(hist, v);
    lemma_count_upto_nonneg(hist, v - 1);
}

proof fn lemma_split(hist: Seq<u64>, v: int)
    requires
        0 <= v <= 256,
        hist.len() == 256,
    ensures
        count_upto(hist, v - 1) + count_from(hist, v) == count_upto(hist, 255),
    decreases 256 - v,
{
    if v <= 255 {
        lemma_split(hist, v + 1);
    }
}

} // verus!

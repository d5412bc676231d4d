//! Locating the embedded JPEG preview inside a RAW file's bytes.

use vstd::prelude::*;

verus! {

/// Position of the second byte of the first end-of-image marker
/// (`FF D9`) starting at or after `j`.
pub open spec fn eoi_from(d: Seq<u8>, j: int) -> Option<int>
    decreases d.len() - j,
{
    if j < 0 || j + 1 >= d.len() {
        None
    } else if d[j] == 0xFF && d[j + 1] == 0xD9 {
        Some(j + 1)
    } else {
        eoi_from(d, j + 1)
    }
}

/// A start-of-image marker (`FF D8`) begins at `i`.
pub open spec fn soi_at(d: Seq<u8>, i: int) -> bool {
    0 <= i && i + 1 < d.len() && d[i] == 0xFF && d[i + 1] == 0xD8
}

/// Length of an optional segment `(start, end)` (inclusive), zero for none.
pub open spec fn segment_len(best: Option<(int, int)>) -> int {
    match best {
        Some((s, e)) => e - s + 1,
        None => 0,
    }
}

/// Scan from `i`: each start marker with a later end marker delimits a
/// segment and the scan resumes after it; the longest segment over 128
/// bytes wins, an earlier one on ties.
pub open spec fn best_segment_from(d: Seq<u8>, i: int, best: Option<(int, int)>) -> Option<(int, int)>
    decreases d.len() - i,
{
    if i < 0 || i + 1 >= d.len() {
        best
    } else if soi_at(d, i) {
        match eoi_from(d, i + 2) {
            Some(e) => {
                let nb = if e - i + 1 > segment_len(best) && e - i + 1 > 128 {
                    Some((i, e))
                } else {
                    best
                };
                if e + 1 > i && e < d.len() {
                    best_segment_from(d, e + 1, nb)
                } else {
                    best
                }
            },
            None => best_segment_from(d, i + 1, best),
        }
    } else {
        best_segment_from(d, i + 1, best)
    }
}

proof fn lemma_eoi_range(d: Seq<u8>, j: int)
    requires
        0 <= j,
    ensures
        eoi_from(d, j) matches Some(e) ==> j + 1 <= e < d.len() && d[e - 1] == 0xFF && d[e] == 0xD9,
    decreases d.len() - j,
{
    if j + 1 < d.len() && !(d[j] == 0xFF && d[j + 1] == 0xD9) {
        lemma_eoi_range(d, j + 1);
    }
}

/// The end of the first end-of-image marker at or after `start`.
pub fn find_eoi(data: &[u8], start: usize) -> (r: Option<usize>)
    ensures
        r matches Some(e) ==> eoi_from(data@, start as int) == Some(e as int),
        r is None ==> eoi_from(data@, start as int) is None,
{
    let mut j = start;
    while j < data.len() && data.len() - j > 1
        invariant
            start <= j,
            eoi_from(data@, j as int) == eoi_from(data@, start as int),
        decreases data.len() - j,
    {
        if data[j] == 0xFF && data[j + 1] == 0xD9 {
            return Some(j + 1);
        }
        j = j + 1;
    }
    None
}

/// The largest embedded JPEG (over 128 bytes) found by scanning for
/// start and end markers.
pub fn find_largest_jpeg(data: &[u8]) -> (r: Option<&[u8]>)
    ensures
        r is None <==> best_segment_from(data@, 0, None) is None,
        r matches Some(b) ==> ({
            let (s, e) = best_segment_from(data@, 0, None).unwrap();
            b@ == data@.subrange(s, e + 1)
        }),
{
    let ghost d = data@;
    let mut best: Option<(usize, usize)> = None;
    let mut i: usize = 0;
    while i < data.len() && data.len() - i > 1
        invariant
            d == data@,
            best matches Some(b) ==> b.0 <= b.1 < d.len(),
            best_segment_from(d, i as int, match best {
                Some(b) => Some((b.0 as int, b.1 as int)),
                None => None,
            }) == best_segment_from(d, 0, None),
        decreases data.len() - i,
    {
        let ghost gb: Option<(int, int)> = match best {
            Some(b) => Some((b.0 as int, b.1 as int)),
            None => None,
        };
        if data[i] == 0xFF && data[i + 1] == 0xD8 {
            if let Some(end) = find_eoi(data, i + 2) {
                proof {
                    lemma_eoi_range(d, i + 2);
                }
                let len = end - i + 1;
                let best_len = match best {
                    Some((s, e)) => e - s + 1,
                    None => 0,
                };
                if len > best_len && len > 128 {
                    best = Some((i, end));
                }
                i = end + 1;
                continue;
            }
        }
        i = i + 1;
    }
    match best {
        Some((s, e)) => Some(vstd::slice::slice_subrange(data, s, e + 1)),
        None => None,
    }
}

/// Embedded previews of this many bytes or fewer are thumbnails too small to
/// judge focus by; the system converter is tried for them first.
pub const MIN_EMBEDDED_PREVIEW_BYTES: usize = 32768;

/// Whether an embedded JPEG of `len` bytes is used directly as the preview.
pub fn embedded_preview_is_large(len: usize) -> (b: bool)
    ensures
        b == (len > MIN_EMBEDDED_PREVIEW_BYTES),
{
    len > MIN_EMBEDDED_PREVIEW_BYTES
}

} // verus!

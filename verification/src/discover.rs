//! Which discovered files take part in a run.

use vstd::prelude::*;
use crate::text::{chars_of, str_eq, lower_seq, lower_char, ascii_lower, eq_ignore_ascii_case, chars_match_at};
use crate::settings::default_extension_names;
use crate::path_text::{file_name, path_file_name, split_extension, stem_and_extension};

verus! {

/// Camera RAW extensions.
pub open spec fn raw_extension_names() -> Seq<Seq<char>> {
    seq!["arw"@, "srf"@, "sr2"@, "nef"@, "nrw"@, "cr2"@, "cr3"@, "crw"@, "raf"@, "dng"@]
}

/// Whether `ext` (already lower case) names a camera RAW format.
pub fn is_raw_ext(ext: &str) -> (b: bool)
    ensures
        b == raw_extension_names().contains(ext@),
{
    let names = ["arw", "srf", "sr2", "nef", "nrw", "cr2", "cr3", "crw", "raf", "dng"];
    let ghost spec_names = raw_extension_names();
    proof {
        assert(names@.map_values(|s: &str| s@) =~= spec_names);
    }
    let mut i: usize = 0;
    while i < 10
        invariant
            i <= 10,
            names@.map_values(|s: &str| s@) == spec_names,
            spec_names == raw_extension_names(),
            names@.len() == 10,
            forall|k: int| 0 <= k < i ==> spec_names[k] != ext@,
        decreases 10 - i,
    {
        if str_eq(names[i], ext) {
            proof {
                assert(spec_names[i as int] == names@[i as int]@);
                assert(spec_names[i as int] == ext@);
                assert(spec_names.contains(ext@));
            }
            return true;
        }
        proof {
            assert(spec_names[i as int] == names@[i as int]@);
        }
        i = i + 1;
    }
    false
}

/// Lower-casing twice is lower-casing once.
pub proof fn lemma_lower_idempotent(s: Seq<char>)
    ensures
        lower_seq(lower_seq(s)) == lower_seq(s),
{
    assert(lower_seq(lower_seq(s)) =~= lower_seq(s));
}

/// Whether `ext` is one of the enabled extensions, ignoring ASCII case.
pub fn is_supported_ext(ext: &str, enabled: &[String]) -> (b: bool)
    ensures
        b == exists|i: int| 0 <= i < enabled@.len() && lower_seq(#[trigger] enabled@[i]@) == lower_seq(ext@),
{
    let e = ascii_lower(ext);
    proof {
        lemma_lower_idempotent(ext@);
    }
    let mut i: usize = 0;
    while i < enabled.len()
        invariant
            e@ == lower_seq(ext@),
            lower_seq(e@) == lower_seq(ext@),
            i <= enabled@.len(),
            forall|k: int| 0 <= k < i ==> lower_seq(#[trigger] enabled@[k]@) != lower_seq(ext@),
        decreases enabled.len() - i,
    {
        if eq_ignore_ascii_case(enabled[i].as_str(), e.as_str()) {
            return true;
        }
        i = i + 1;
    }
    false
}

/// `c` is a whole `/`-separated component of `s`.
pub open spec fn has_component(s: Seq<char>, c: Seq<char>) -> bool {
    exists|i: int, j: int|
        0 <= i <= j <= s.len() && (i == 0 || s[i - 1] == '/') && (j == s.len() || s[j] == '/')
            && #[trigger] s.subrange(i, j) == c
}

/// A path below the scanned root is skipped when one of its components is
/// an output folder.
pub open spec fn skipped_relative(rel: Seq<char>) -> bool {
    has_component(rel, crate::settings::GOOD_DIR@) || has_component(rel, crate::settings::REJECTED_DIR@)
}

/// Whether a path, given relative to the scanned root, lies inside
/// `Images-Good` or `Rejected`; a path outside the root (`None`) never does.
pub fn should_skip_path(rel: Option<&str>) -> (b: bool)
    ensures
        b == match rel {
            Some(r) => skipped_relative(r@),
            None => false,
        },
{
    let r = match rel {
        Some(r) => r,
        None => {
            return false;
        },
    };
    let cs = chars_of(r);
    let good = chars_of(crate::settings::GOOD_DIR);
    let rejected = chars_of(crate::settings::REJECTED_DIR);
    let ghost s = r@;
    proof {
        reveal_strlit("Images-Good");
        reveal_strlit("Rejected");
    }
    let mut seg_start: usize = 0;
    let mut k: usize = 0;
    loop
        invariant
            s == r@,
            rel == Some(r),
            cs@ == s,
            good@ == crate::settings::GOOD_DIR@,
            rejected@ == crate::settings::REJECTED_DIR@,
            forall|q: int| 0 <= q < good@.len() ==> good@[q] != '/',
            forall|q: int| 0 <= q < rejected@.len() ==> rejected@[q] != '/',
            seg_start <= k <= cs@.len(),
            seg_start == 0 || cs@[seg_start - 1] == '/',
            forall|q: int| seg_start <= q < k ==> cs@[q] != '/',
            forall|i: int, j: int|
                0 <= i <= j < k && (i == 0 || s[i - 1] == '/') && s[j] == '/' ==> #[trigger] s.subrange(i, j)
                    != good@ && s.subrange(i, j) != rejected@,
        decreases cs@.len() - k,
    {
        if k == cs.len() || cs[k] == '/' {
            let len = k - seg_start;
            let hit = (len == good.len() && chars_match_at(&cs, seg_start, &good)) || (len
                == rejected.len() && chars_match_at(&cs, seg_start, &rejected));
            if hit {
                proof {
                    if s.subrange(seg_start as int, k as int) == good@ {
                        assert(has_component(s, good@));
                    } else {
                        assert(s.subrange(seg_start as int, k as int) == rejected@);
                        assert(has_component(s, rejected@));
                    }
                }
                return true;
            }
            if k == cs.len() {
                proof {
                    assert forall|i: int, j: int|
                        0 <= i <= j <= s.len() && (i == 0 || s[i - 1] == '/') && (j == s.len() || s[j]
                            == '/') && #[trigger] s.subrange(i, j) == good@ implies false by {
                        if j == s.len() {
                            if i < seg_start {
                                assert(s.subrange(i, j)[seg_start - 1 - i] == '/');
                            }
                            if i > seg_start {
                                assert(s[i - 1] == '/');
                            }
                        }
                    }
                    assert forall|i: int, j: int|
                        0 <= i <= j <= s.len() && (i == 0 || s[i - 1] == '/') && (j == s.len() || s[j]
                            == '/') && #[trigger] s.subrange(i, j) == rejected@ implies false by {
                        if j == s.len() {
                            if i < seg_start {
                                assert(s.subrange(i, j)[seg_start - 1 - i] == '/');
                            }
                            if i > seg_start {
                                assert(s[i - 1] == '/');
                            }
                        }
                    }
                }
                return false;
            }
            proof {
                assert forall|i: int, j: int|
                    0 <= i <= j < k + 1 && (i == 0 || s[i - 1] == '/') && s[j] == '/' implies #[trigger] s.subrange(
                    i,
                    j,
                ) != good@ && s.subrange(i, j) != rejected@ by {
                    if j == k {
                        if i < seg_start {
                            if s.subrange(i, j) == good@ {
                                assert(s.subrange(i, j)[seg_start - 1 - i] == '/');
                            }
                            if s.subrange(i, j) == rejected@ {
                                assert(s.subrange(i, j)[seg_start - 1 - i] == '/');
                            }
                        }
                        if i > seg_start {
                            assert(s[i - 1] == '/');
                        }
                    }
                }
            }
            seg_start = k + 1;
        }
        k = k + 1;
    }
}

/// The lower-case extension of the final component of `path`, or the empty
/// string when it has none.
pub open spec fn path_extension_lower(path: Seq<char>) -> Seq<char> {
    match path_file_name(path) {
        Some(n) => match stem_and_extension(n).1 {
            Some(e) => lower_seq(e),
            None => Seq::empty(),
        },
        None => Seq::empty(),
    }
}

/// The lower-case extension of `path` (empty when there is none).
pub fn extension_lower(path: &str) -> (e: String)
    ensures
        e@ == path_extension_lower(path@),
{
    match file_name(path) {
        Some(n) => {
            let (_, ext) = split_extension(n.as_str());
            match ext {
                Some(x) => ascii_lower(x.as_str()),
                None => String::new(),
            }
        },
        None => String::new(),
    }
}

/// Whether a discovered file takes part in a run: it is not inside an output
/// folder and its extension is enabled. `rel` is the path relative to the
/// scanned root, when it lies below it.
pub fn wants_file(path: &str, rel: Option<&str>, enabled_extensions: &[String]) -> (b: bool)
    ensures
        b == (!match rel {
            Some(r) => skipped_relative(r@),
            None => false,
        } && exists|i: int|
            0 <= i < enabled_extensions@.len() && lower_seq(#[trigger] enabled_extensions@[i]@) == lower_seq(
                path_extension_lower(path@),
            )),
{
    if should_skip_path(rel) {
        return false;
    }
    let ext = extension_lower(path);
    is_supported_ext(ext.as_str(), enabled_extensions)
}

/// Out of the box every common RAW and raster format takes part in a run:
/// a file whose extension is, ignoring ASCII case, one of arw, srf, sr2, nef,
/// nrw, cr2, cr3, crw, raf, dng, jpg, jpeg, png, tif, tiff, webp, bmp, gif,
/// heic or heif matches an enabled default extension, so `wants_file` takes
/// it with the defaults unless it lies in an output folder.
pub proof fn law_defaults_accept_common_formats(path: Seq<char>)
    requires
        ({
            ||| lower_seq(path_extension_lower(path)) == lower_seq("arw"@)
            ||| lower_seq(path_extension_lower(path)) == lower_seq("srf"@)
            ||| lower_seq(path_extension_lower(path)) == lower_seq("sr2"@)
            ||| lower_seq(path_extension_lower(path)) == lower_seq("nef"@)
            ||| lower_seq(path_extension_lower(path)) == lower_seq("nrw"@)
            ||| lower_seq(path_extension_lower(path)) == lower_seq("cr2"@)
            ||| lower_seq(path_extension_lower(path)) == lower_seq("cr3"@)
            ||| lower_seq(path_extension_lower(path)) == lower_seq("crw"@)
            ||| lower_seq(path_extension_lower(path)) == lower_seq("raf"@)
            ||| lower_seq(path_extension_lower(path)) == lower_seq("dng"@)
            ||| lower_seq(path_extension_lower(path)) == lower_seq("jpg"@)
            ||| lower_seq(path_extension_lower(path)) == lower_seq("jpeg"@)
            ||| lower_seq(path_extension_lower(path)) == lower_seq("png"@)
            ||| lower_seq(path_extension_lower(path)) == lower_seq("tif"@)
            ||| lower_seq(path_extension_lower(path)) == lower_seq("tiff"@)
            ||| lower_seq(path_extension_lower(path)) == lower_seq("webp"@)
            ||| lower_seq(path_extension_lower(path)) == lower_seq("bmp"@)
            ||| lower_seq(path_extension_lower(path)) == lower_seq("gif"@)
            ||| lower_seq(path_extension_lower(path)) == lower_seq("heic"@)
            ||| lower_seq(path_extension_lower(path)) == lower_seq("heif"@)
        }),
    ensures
        exists|i: int|
            0 <= i < default_extension_names().len() && lower_seq(#[trigger] default_extension_names()[i]) == lower_seq(
                path_extension_lower(path),
            ),
{
    if lower_seq(path_extension_lower(path)) == lower_seq("arw"@) {
        assert(default_extension_names()[0] == "arw"@);
    }
    if lower_seq(path_extension_lower(path)) == lower_seq("srf"@) {
        assert(default_extension_names()[1] == "srf"@);
    }
    if lower_seq(path_extension_lower(path)) == lower_seq("sr2"@) {
        assert(default_extension_names()[2] == "sr2"@);
    }
    if lower_seq(path_extension_lower(path)) == lower_seq("nef"@) {
        assert(default_extension_names()[3] == "nef"@);
    }
    if lower_seq(path_extension_lower(path)) == lower_seq("nrw"@) {
        assert(default_extension_names()[4] == "nrw"@);
    }
    if lower_seq(path_extension_lower(path)) == lower_seq("cr2"@) {
        assert(default_extension_names()[5] == "cr2"@);
    }
    if lower_seq(path_extension_lower(path)) == lower_seq("cr3"@) {
        assert(default_extension_names()[6] == "cr3"@);
    }
    if lower_seq(path_extension_lower(path)) == lower_seq("crw"@) {
        assert(default_extension_names()[7] == "crw"@);
    }
    if lower_seq(path_extension_lower(path)) == lower_seq("raf"@) {
        assert(default_extension_names()[8] == "raf"@);
    }
    if lower_seq(path_extension_lower(path)) == lower_seq("dng"@) {
        assert(default_extension_names()[9] == "dng"@);
    }
    if lower_seq(path_extension_lower(path)) == lower_seq("jpg"@) {
        assert(default_extension_names()[10] == "jpg"@);
    }
    if lower_seq(path_extension_lower(path)) == lower_seq("jpeg"@) {
        assert(default_extension_names()[11] == "jpeg"@);
    }
    if lower_seq(path_extension_lower(path)) == lower_seq("png"@) {
        assert(default_extension_names()[12] == "png"@);
    }
    if lower_seq(path_extension_lower(path)) == lower_seq("tif"@) {
        assert(default_extension_names()[13] == "tif"@);
    }
    if lower_seq(path_extension_lower(path)) == lower_seq("tiff"@) {
        assert(default_extension_names()[14] == "tiff"@);
    }
    if lower_seq(path_extension_lower(path)) == lower_seq("webp"@) {
        assert(default_extension_names()[15] == "webp"@);
    }
    if lower_seq(path_extension_lower(path)) == lower_seq("bmp"@) {
        assert(default_extension_names()[16] == "bmp"@);
    }
    if lower_seq(path_extension_lower(path)) == lower_seq("gif"@) {
        assert(default_extension_names()[17] == "gif"@);
    }
    if lower_seq(path_extension_lower(path)) == lower_seq("heic"@) {
        assert(default_extension_names()[18] == "heic"@);
    }
    if lower_seq(path_extension_lower(path)) == lower_seq("heif"@) {
        assert(default_extension_names()[19] == "heif"@);
    }
}

} // verus!

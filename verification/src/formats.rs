//! Classification of input files by the extension of their path:
//! RAW camera formats versus standard codecs, and the three supported
//! LUT source formats.
//!
//! Paths are handled as byte strings with `/` as the separator. The
//! extension is the part of the file name after its last `.`, except
//! that a leading `.` of the file name does not begin an extension.
//! All extension matching is ASCII case-insensitive.

use vstd::prelude::*;

verus! {

/// ASCII lower-casing of one byte.
pub open spec fn spec_lower(b: u8) -> u8 {
    if 65 <= b <= 90 { (b + 32) as u8 } else { b }
}

/// A byte string lower-cased.
pub open spec fn spec_lower_seq(x: Seq<u8>) -> Seq<u8> {
    x.map_values(|b: u8| spec_lower(b))
}

/// ASCII case-insensitive equality of two byte strings.
pub open spec fn spec_eq_ci(a: Seq<u8>, b: Seq<u8>) -> bool {
    a.len() == b.len() && forall|k: int| 0 <= k < a.len() ==> spec_lower(a[k]) == spec_lower(b[k])
}

/// The extension of the path whose not-yet-scanned prefix is `p` and
/// whose scanned suffix (free of `.` and `/`) is `acc`: `None` when the
/// file name has no extension.
pub open spec fn spec_ext_helper(p: Seq<u8>, acc: Seq<u8>) -> Option<Seq<u8>>
    decreases p.len(),
{
    if p.len() == 0 {
        None
    } else if p.last() == 47 {  // '/'
        None
    } else if p.last() == 46 {  // '.'
        if p.len() >= 2 && p[p.len() - 2] != 47 {
            Some(acc)
        } else {
            None
        }
    } else {
        spec_ext_helper(p.drop_last(), seq![p.last()] + acc)
    }
}

/// The extension of a path, empty when it has none; this is what all
/// format classification goes by.
pub open spec fn spec_extension(p: Seq<u8>) -> Seq<u8> {
    match spec_ext_helper(p, Seq::empty()) {
        Some(e) => e,
        None => Seq::empty(),
    }
}

/// The extension of `path`, lower-cased; empty when the path has none.
pub fn extension_of(path: &Vec<u8>) -> (r: Vec<u8>)
    ensures
        r@ == spec_lower_seq(spec_extension(path@)),
{
    let ghost whole: Seq<u8> = path@;
    let mut i: usize = path.len();
    proof {
        assert(whole.take(whole.len() as int) =~= whole);
        assert(whole.skip(whole.len() as int) =~= Seq::<u8>::empty());
    }
    while i > 0
        invariant
            whole == path@,
            i <= path.len(),
            forall|k: int| i <= k < path@.len() ==> path@[k] != 46 && path@[k] != 47,
            spec_ext_helper(whole, Seq::empty())
                == spec_ext_helper(whole.take(i as int), whole.skip(i as int)),
        decreases i,
    {
        let b = path[i - 1];
        if b == 47 {
            proof {
                assert(whole.take(i as int).last() == 47);
            }
            return Vec::new();
        }
        if b == 46 {
            if i >= 2 && path[i - 2] != 47 {
                let mut r: Vec<u8> = Vec::new();
                let mut j: usize = i;
                while j < path.len()
                    invariant
                        i <= j <= path.len(),
                        whole == path@,
                        r@ == whole.skip(i as int).take(j - i).map_values(
                            |b2: u8| spec_lower(b2)),
                    decreases path.len() - j,
                {
                    let mut v = path[j];
                    if 65 <= v && v <= 90 {
                        v = v + 32;
                    }
                    r.push(v);
                    proof {
                        assert(whole.skip(i as int).take(j + 1 - i as int)
                            =~= whole.skip(i as int).take(j - i as int).push(whole[j as int]));
                        assert(r@ =~= whole.skip(i as int).take(j + 1 - i as int).map_values(
                            |b2: u8| spec_lower(b2)));
                    }
                    j += 1;
                }
                proof {
                    let t = whole.take(i as int);
                    assert(t.last() == 46 && t.len() >= 2 && t[t.len() - 2] != 47);
                    assert(whole.skip(i as int).take(path@.len() - i as int)
                        =~= whole.skip(i as int));
                    assert(spec_extension(whole) == whole.skip(i as int));
                }
                return r;
            } else {
                proof {
                    let t = whole.take(i as int);
                    assert(t.last() == 46);
                    assert(i >= 2 ==> t[t.len() - 2] == whole[i - 2]);
                }
                return Vec::new();
            }
        }
        proof {
            let t = whole.take(i as int);
            assert(t.last() == whole[i - 1] && t.last() != 46 && t.last() != 47);
            assert(t.drop_last() =~= whole.take(i - 1));
            assert(seq![whole[i - 1]] + whole.skip(i as int) =~= whole.skip(i - 1));
        }
        i -= 1;
    }
    proof {
        assert(whole.take(0) =~= Seq::<u8>::empty());
    }
    Vec::new()
}

/// ASCII case-insensitive comparison with a three-byte extension.
pub fn eq_ci_3(e: &Vec<u8>, a: u8, b: u8, c: u8) -> (r: bool)
    ensures
        r == spec_eq_ci(e@, seq![a, b, c]),
{
    if e.len() != 3 {
        return false;
    }
    let r = lower_eq(e[0], a) && lower_eq(e[1], b) && lower_eq(e[2], c);
    proof {
        if r {
            assert forall|k: int| 0 <= k < 3 implies
                spec_lower(e@[k]) == spec_lower(seq![a, b, c][k]) by {
            }
        }
    }
    r
}

/// ASCII case-insensitive comparison with a four-byte extension.
pub fn eq_ci_4(e: &Vec<u8>, a: u8, b: u8, c: u8, d: u8) -> (r: bool)
    ensures
        r == spec_eq_ci(e@, seq![a, b, c, d]),
{
    if e.len() != 4 {
        return false;
    }
    let r = lower_eq(e[0], a) && lower_eq(e[1], b) && lower_eq(e[2], c) && lower_eq(e[3], d);
    proof {
        if r {
            assert forall|k: int| 0 <= k < 4 implies
                spec_lower(e@[k]) == spec_lower(seq![a, b, c, d][k]) by {
            }
        }
    }
    r
}

/// ASCII case-insensitive equality of two byte strings.
pub fn bytes_eq_ci(a: &Vec<u8>, b: &Vec<u8>) -> (r: bool)
    ensures
        r == spec_eq_ci(a@, b@),
{
    if a.len() != b.len() {
        return false;
    }
    let mut k: usize = 0;
    while k < a.len()
        invariant
            a@.len() == b@.len(),
            k <= a@.len(),
            forall|j: int| 0 <= j < k ==> spec_lower(a@[j]) == spec_lower(b@[j]),
        decreases a@.len() - k,
    {
        if !lower_eq(a[k], b[k]) {
            return false;
        }
        k += 1;
    }
    true
}

/// ASCII case-insensitive equality of two bytes.
fn lower_eq(x: u8, y: u8) -> (r: bool)
    ensures
        r == (spec_lower(x) == spec_lower(y)),
{
    let xl: u8 = if 65 <= x && x <= 90 { x + 32 } else { x };
    let yl: u8 = if 65 <= y && y <= 90 { y + 32 } else { y };
    xl == yl
}

/// Lower-casing a byte twice is the same as lower-casing it once, so a
/// case-insensitive comparison may be made on the lower-cased extension.
pub proof fn lemma_lower_eq_ci(x: Seq<u8>)
    ensures
        forall|t: Seq<u8>| #[trigger] spec_eq_ci(spec_lower_seq(x), t) == spec_eq_ci(x, t),
{
    let m = spec_lower_seq(x);
    assert forall|t: Seq<u8>| #[trigger] spec_eq_ci(m, t) == spec_eq_ci(x, t) by {
        assert(m.len() == x.len());
        if spec_eq_ci(m, t) {
            assert forall|k: int| 0 <= k < x.len() implies
                spec_lower(x[k]) == spec_lower(t[k]) by {
                assert(m[k] == spec_lower(x[k]));
                assert(spec_lower(m[k]) == spec_lower(t[k]));
            }
            assert(spec_eq_ci(x, t));
        }
        if spec_eq_ci(x, t) {
            assert forall|k: int| 0 <= k < m.len() implies
                spec_lower(m[k]) == spec_lower(t[k]) by {
                assert(m[k] == spec_lower(x[k]));
                assert(spec_lower(x[k]) == spec_lower(t[k]));
            }
            assert(spec_eq_ci(m, t));
        }
    }
}

/// Whether the extension names one of the recognised RAW camera formats.
pub open spec fn spec_is_raw_ext(e: Seq<u8>) -> bool {
    ||| spec_eq_ci(e, seq![97u8, 114, 119])   // arw
    ||| spec_eq_ci(e, seq![99u8, 114, 50])    // cr2
    ||| spec_eq_ci(e, seq![99u8, 114, 51])    // cr3
    ||| spec_eq_ci(e, seq![99u8, 114, 119])   // crw
    ||| spec_eq_ci(e, seq![100u8, 110, 103])  // dng
    ||| spec_eq_ci(e, seq![101u8, 114, 102])  // erf
    ||| spec_eq_ci(e, seq![105u8, 105, 113])  // iiq
    ||| spec_eq_ci(e, seq![109u8, 114, 119])  // mrw
    ||| spec_eq_ci(e, seq![110u8, 101, 102])  // nef
    ||| spec_eq_ci(e, seq![110u8, 114, 119])  // nrw
    ||| spec_eq_ci(e, seq![111u8, 114, 102])  // orf
    ||| spec_eq_ci(e, seq![112u8, 101, 102])  // pef
    ||| spec_eq_ci(e, seq![114u8, 97, 102])   // raf
    ||| spec_eq_ci(e, seq![114u8, 97, 119])   // raw
    ||| spec_eq_ci(e, seq![114u8, 119, 50])   // rw2
    ||| spec_eq_ci(e, seq![115u8, 114, 119])  // srw
    ||| spec_eq_ci(e, seq![120u8, 51, 102])   // x3f
    ||| spec_eq_ci(e, seq![51u8, 102, 114])   // 3fr
}

/// Whether `path` classifies as a RAW camera file. Unknown extensions,
/// and paths without one, classify as non-RAW.
pub fn is_raw_file(path: &Vec<u8>) -> (r: bool)
    ensures
        r == spec_is_raw_ext(spec_extension(path@)),
{
    let e = extension_of(path);
    proof {
        lemma_lower_eq_ci(spec_extension(path@));
    }
    eq_ci_3(&e, 97, 114, 119) || eq_ci_3(&e, 99, 114, 50) || eq_ci_3(&e, 99, 114, 51)
        || eq_ci_3(&e, 99, 114, 119) || eq_ci_3(&e, 100, 110, 103)
        || eq_ci_3(&e, 101, 114, 102) || eq_ci_3(&e, 105, 105, 113)
        || eq_ci_3(&e, 109, 114, 119) || eq_ci_3(&e, 110, 101, 102)
        || eq_ci_3(&e, 110, 114, 119) || eq_ci_3(&e, 111, 114, 102)
        || eq_ci_3(&e, 112, 101, 102) || eq_ci_3(&e, 114, 97, 102)
        || eq_ci_3(&e, 114, 97, 119) || eq_ci_3(&e, 114, 119, 50)
        || eq_ci_3(&e, 115, 114, 119) || eq_ci_3(&e, 120, 51, 102)
        || eq_ci_3(&e, 51, 102, 114)
}

/// The LUT source format a path names.
#[derive(Clone, Copy, PartialEq, Eq, Structural, Debug)]
pub enum LutFormat {
    /// A `.cube` text file.
    Cube,
    /// A `.3dl` text file.
    ThreeDl,
    /// A raster image (`png`, `jpg`, `jpeg`, `tiff`) carrying a HALD LUT.
    HaldImage,
    /// Anything else: rejected with an unsupported-format error.
    Unsupported,
}

/// The LUT source format of an extension.
pub open spec fn spec_lut_format(e: Seq<u8>) -> LutFormat {
    if spec_eq_ci(e, seq![99u8, 117, 98, 101]) {  // cube
        LutFormat::Cube
    } else if spec_eq_ci(e, seq![51u8, 100, 108]) {  // 3dl
        LutFormat::ThreeDl
    } else if spec_eq_ci(e, seq![112u8, 110, 103])  // png
        || spec_eq_ci(e, seq![106u8, 112, 103])  // jpg
        || spec_eq_ci(e, seq![106u8, 112, 101, 103])  // jpeg
        || spec_eq_ci(e, seq![116u8, 105, 102, 102]) {  // tiff
        LutFormat::HaldImage
    } else {
        LutFormat::Unsupported
    }
}

/// Classify a LUT file path by its extension, case-insensitively.
pub fn classify_lut_path(path: &Vec<u8>) -> (r: LutFormat)
    ensures
        r == spec_lut_format(spec_extension(path@)),
{
    let e = extension_of(path);
    proof {
        lemma_lower_eq_ci(spec_extension(path@));
    }
    if eq_ci_4(&e, 99, 117, 98, 101) {
        LutFormat::Cube
    } else if eq_ci_3(&e, 51, 100, 108) {
        LutFormat::ThreeDl
    } else if eq_ci_3(&e, 112, 110, 103) || eq_ci_3(&e, 106, 112, 103)
        || eq_ci_4(&e, 106, 112, 101, 103) || eq_ci_4(&e, 116, 105, 102, 102) {
        LutFormat::HaldImage
    } else {
        LutFormat::Unsupported
    }
}

} // verus!

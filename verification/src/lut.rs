//! Ingestion of third-party colour lookup tables into one canonical
//! grid: a cubic `size` and `size³ × 3` samples in file order. Text
//! sources (`.cube`, `.3dl`) keep each sample as its validated numeric
//! token; HALD images keep each sample as its 8-bit channel value. The
//! conversion of either form to normalized floating-point samples
//! happens outside this crate.

use vstd::prelude::*;
use crate::formats::spec_eq_ci;
use crate::formats::bytes_eq_ci;
use crate::text::{spec_tokens, spec_views, tokenize, spec_is_float_token, is_float_token,
    spec_parse_u32, parse_u32_token, lemma_tokens_each_nonempty, spec_is_ws, spec_u32_dec,
    lemma_u32_dec, lemma_float_token_shape, lemma_tokens_prepend, lemma_tokens_ws,
    spec_is_digit};
use crate::formats::spec_lower;

verus! {

/// The samples of a LUT grid: numeric tokens from a text source, or
/// 8-bit channel values from a HALD image, `size³ × 3` of either.
#[derive(Debug)]
pub enum LutData {
    /// One validated numeric token per sample, in file order.
    Tokens(Vec<Vec<u8>>),
    /// One byte per sample, each a channel value to be divided by 255.
    Channels(Vec<u8>),
}

/// A canonical 3D LUT grid.
#[derive(Debug)]
pub struct Lut {
    /// The cubic grid size.
    pub size: u32,
    /// The samples, exactly `size³ × 3` of them.
    pub data: LutData,
}

/// The ghost form of the samples.
pub enum LutDataView {
    Tokens(Seq<Seq<u8>>),
    Channels(Seq<u8>),
}

/// The ghost form of a LUT grid.
pub struct LutView {
    pub size: u32,
    pub data: LutDataView,
}

impl View for Lut {
    type V = LutView;

    open spec fn view(&self) -> LutView {
        LutView {
            size: self.size,
            data: match self.data {
                LutData::Tokens(t) => LutDataView::Tokens(spec_views(t@)),
                LutData::Channels(c) => LutDataView::Channels(c@),
            },
        }
    }
}

impl Lut {
    /// The grid invariant: the sample count is exactly `size³ × 3`.
    pub open spec fn wf(self) -> bool {
        match self.data {
            LutData::Tokens(t) => t@.len() == self.size * self.size * self.size * 3,
            LutData::Channels(c) => c@.len() == self.size * self.size * self.size * 3,
        }
    }
}

/// Why a LUT source was rejected.
#[derive(Clone, Copy, PartialEq, Eq, Structural, Debug)]
pub enum LutError {
    /// A `LUT_3D_SIZE` argument did not parse as a decimal `u32`.
    InvalidSizeValue,
    /// A `.cube` data line has fewer than three tokens.
    MissingComponent,
    /// A sample token failed numeric validation.
    InvalidNumber,
    /// No `LUT_3D_SIZE` line was found in a `.cube` file.
    SizeNotDeclared,
    /// A `.cube` file's sample count is not `size³ × 3`.
    SizeMismatch,
    /// A `.3dl` file holds no sample triples at all.
    EmptyData,
    /// A `.3dl` file's triple count is not a perfect cube.
    NonCubicData,
    /// A HALD image is not square.
    NotSquare,
    /// A square HALD image's pixel count is not a perfect cube.
    NonCubicPixels,
    /// The path's extension names no supported LUT format.
    UnsupportedFormat,
}

/// Whether `v` is a perfect cube.
pub open spec fn spec_is_cube(v: int) -> bool {
    exists|t: int| 0 <= t && #[trigger] (t * t * t) == v
}

/// The cube is strictly monotonic, so the cube root is unique.
pub proof fn lemma_cube_mono(a: int, b: int)
    requires
        0 <= a < b,
    ensures
        a * a * a < b * b * b,
{
    assert(a * a * a < b * b * b) by (nonlinear_arith)
        requires 0 <= a < b;
}

/// A value bracketed by `r³` and `(r+1)³` is a perfect cube exactly
/// when it is `r³`.
pub proof fn lemma_cube_unique(n: int, r: int)
    requires
        0 <= r,
        r * r * r <= n,
        n < (r + 1) * (r + 1) * (r + 1),
    ensures
        spec_is_cube(n) <==> r * r * r == n,
        spec_is_cube(n) ==> (choose|t: int| 0 <= t && #[trigger] (t * t * t) == n) == r,
{
    if spec_is_cube(n) {
        let t = choose|t: int| 0 <= t && #[trigger] (t * t * t) == n;
        if t < r {
            lemma_cube_mono(t, r);
            assert(false);
        }
        if t > r {
            lemma_cube_mono(r + 1 - 1, t);
            if r + 1 <= t {
                if r + 1 < t {
                    lemma_cube_mono(r + 1, t);
                }
                assert((r + 1) * (r + 1) * (r + 1) <= t * t * t);
                assert(false);
            }
        }
        assert(t == r);
    }
    if r * r * r == n {
        assert(0 <= r && r * r * r == n);
    }
}

/// The integer cube root: the largest `r` with `r³ <= n`. Every `u64`
/// has its root below 2642246.
pub fn int_cube_root(n: u64) -> (r: u64)
    ensures
        r <= 2642245,
        r * r * r <= n,
        n < (r + 1) * (r + 1) * (r + 1),
{
    proof {
        assert((2642245int * 2642245 * 2642245) < 0x1_0000_0000_0000_0000int);
        assert((2642246int * 2642246 * 2642246) > 0xffff_ffff_ffff_ffffint);
    }
    let mut s: u64 = 0;
    loop
        invariant
            s <= 2642245,
            s * s * s <= n,
        ensures
            s <= 2642245,
            s * s * s <= n,
            s == 2642245 || (s + 1) * (s + 1) * (s + 1) > n,
        decreases 2642245 - s,
    {
        if s >= 2642245 {
            break;
        }
        proof {
            assert(((s + 1) as int) * ((s + 1) as int) <= 2642245int * 2642245
                && ((s + 1) as int) * ((s + 1) as int) * ((s + 1) as int)
                    <= 2642245int * 2642245 * 2642245) by (nonlinear_arith)
                requires s + 1 <= 2642245int;
            assert((2642245int * 2642245) < 0x1_0000_0000_0000_0000int);
            assert((2642245int * 2642245 * 2642245) < 0x1_0000_0000_0000_0000int);
        }
        let c: u64 = (s + 1) * (s + 1) * (s + 1);
        if c > n {
            break;
        }
        s += 1;
    }
    proof {
        if s == 2642245 {
            assert((2642246int * 2642246 * 2642246) > 0xffff_ffff_ffff_ffffint);
        }
    }
    s
}

/// The `TITLE` keyword.
pub open spec fn spec_kw_title() -> Seq<u8> {
    seq![84u8, 73, 84, 76, 69]
}

/// The `LUT_3D_SIZE` keyword.
pub open spec fn spec_kw_size() -> Seq<u8> {
    seq![76u8, 85, 84, 95, 51, 68, 95, 83, 73, 90, 69]
}

/// The running state of a `.cube` parse: the declared size, if any,
/// and the sample tokens gathered so far.
pub struct CubeState {
    pub size: Option<u32>,
    pub data: Seq<Seq<u8>>,
}

/// One line of a `.cube` file applied to the parse state. Blank lines,
/// comments, `TITLE` lines, and data lines before any `LUT_3D_SIZE`
/// are skipped; a `LUT_3D_SIZE` line with an argument sets the size
/// (the last one wins); any other line once a size is declared must
/// open with three valid numeric tokens, appended in file order.
/// Keyword matching is ASCII case-insensitive.
pub open spec fn spec_cube_line(st: CubeState, line: Seq<u8>) -> Result<CubeState, LutError> {
    let toks = spec_tokens(line);
    if toks.len() == 0 {
        Ok(st)
    } else if toks[0][0] == 35 {
        Ok(st)
    } else if spec_eq_ci(toks[0], spec_kw_title()) {
        Ok(st)
    } else if spec_eq_ci(toks[0], spec_kw_size()) {
        if toks.len() > 1 {
            match spec_parse_u32(toks[1]) {
                Some(n) => Ok(CubeState { size: Some(n), data: st.data }),
                None => Err(LutError::InvalidSizeValue),
            }
        } else {
            Ok(st)
        }
    } else if st.size is None {
        Ok(st)
    } else if !spec_is_float_token(toks[0]) {
        Err(LutError::InvalidNumber)
    } else if toks.len() < 2 {
        Err(LutError::MissingComponent)
    } else if !spec_is_float_token(toks[1]) {
        Err(LutError::InvalidNumber)
    } else if toks.len() < 3 {
        Err(LutError::MissingComponent)
    } else if !spec_is_float_token(toks[2]) {
        Err(LutError::InvalidNumber)
    } else {
        Ok(CubeState { size: st.size, data: st.data + seq![toks[0], toks[1], toks[2]] })
    }
}

/// The parse state after the lines read so far, first line first.
pub open spec fn spec_cube_fold(lines: Seq<Seq<u8>>) -> Result<CubeState, LutError>
    decreases lines.len(),
{
    if lines.len() == 0 {
        Ok(CubeState { size: None, data: Seq::empty() })
    } else {
        match spec_cube_fold(lines.drop_last()) {
            Ok(st) => spec_cube_line(st, lines.last()),
            Err(e) => Err(e),
        }
    }
}

/// What a `.cube` source parses to: the folded lines, requiring a
/// declared size and exactly `size³ × 3` gathered samples.
pub open spec fn spec_parse_cube(lines: Seq<Seq<u8>>) -> Result<LutView, LutError> {
    match spec_cube_fold(lines) {
        Err(e) => Err(e),
        Ok(st) => match st.size {
            None => Err(LutError::SizeNotDeclared),
            Some(n) => {
                if st.data.len() != n * n * n * 3 {
                    Err(LutError::SizeMismatch)
                } else {
                    Ok(LutView { size: n, data: LutDataView::Tokens(st.data) })
                }
            },
        },
    }
}

/// An error in any prefix of the lines is the error of the whole fold.
proof fn lemma_cube_fold_err(lines: Seq<Seq<u8>>, i: int, e: LutError)
    requires
        0 <= i <= lines.len(),
        spec_cube_fold(lines.take(i)) == Err::<CubeState, LutError>(e),
    ensures
        spec_cube_fold(lines) == Err::<CubeState, LutError>(e),
    decreases lines.len() - i,
{
    if i < lines.len() {
        assert(lines.take(i + 1).drop_last() =~= lines.take(i));
        lemma_cube_fold_err(lines, i + 1, e);
    } else {
        assert(lines.take(i) =~= lines);
    }
}

/// Parse the lines of a `.cube` file; exact per `spec_parse_cube`,
/// and every returned grid satisfies the `size³ × 3` invariant.
pub fn parse_cube(lines: &Vec<Vec<u8>>) -> (r: Result<Lut, LutError>)
    ensures
        r matches Ok(l) ==> Ok::<LutView, LutError>(l@) == spec_parse_cube(spec_views(lines@))
            && l.wf(),
        r matches Err(e) ==> Err::<LutView, LutError>(e) == spec_parse_cube(spec_views(lines@)),
{
    let ghost lv: Seq<Seq<u8>> = spec_views(lines@);
    let mut size_opt: Option<u32> = None;
    let mut data: Vec<Vec<u8>> = Vec::new();
    let mut i: usize = 0;
    proof {
        assert(lv.take(0) =~= Seq::<Seq<u8>>::empty());
        assert(spec_views(data@) =~= Seq::<Seq<u8>>::empty());
    }
    let title: Vec<u8> = vec![84u8, 73, 84, 76, 69];
    let kw_size: Vec<u8> = vec![76u8, 85, 84, 95, 51, 68, 95, 83, 73, 90, 69];
    while i < lines.len()
        invariant
            lv == spec_views(lines@),
            lv.len() == lines@.len(),
            i <= lines@.len(),
            title@ == spec_kw_title(),
            kw_size@ == spec_kw_size(),
            spec_cube_fold(lv.take(i as int)) == Ok::<CubeState, LutError>(
                CubeState { size: size_opt, data: spec_views(data@) }),
        decreases lines@.len() - i,
    {
        let ghost st = CubeState { size: size_opt, data: spec_views(data@) };
        let mut toks = tokenize(&lines[i]);
        proof {
            assert(lv[i as int] == lines@[i as int]@);
            assert(lv.take(i + 1).drop_last() =~= lv.take(i as int));
            assert(lv.take(i + 1).last() == lv[i as int]);
            lemma_tokens_each_nonempty(lv[i as int]);
            assert(spec_views(toks@) == spec_tokens(lv[i as int]));
        }
        if toks.len() == 0 {
            i += 1;
            continue;
        }
        proof {
            assert(spec_views(toks@)[0] == toks@[0]@);
            assert(toks@[0]@.len() > 0);
        }
        if toks[0][0] == 35 {
            i += 1;
            continue;
        }
        if bytes_eq_ci(&toks[0], &title) {
            i += 1;
            continue;
        }
        if bytes_eq_ci(&toks[0], &kw_size) {
            if toks.len() > 1 {
                proof {
                    assert(spec_views(toks@)[1] == toks@[1]@);
                }
                match parse_u32_token(&toks[1]) {
                    Some(n) => {
                        size_opt = Some(n);
                    },
                    None => {
                        proof {
                            lemma_cube_fold_err(lv, i + 1, LutError::InvalidSizeValue);
                        }
                        return Err(LutError::InvalidSizeValue);
                    },
                }
            }
            i += 1;
            continue;
        }
        if size_opt.is_none() {
            i += 1;
            continue;
        }
        proof {
            assert(spec_views(toks@)[0] == toks@[0]@);
        }
        if !is_float_token(&toks[0]) {
            proof {
                lemma_cube_fold_err(lv, i + 1, LutError::InvalidNumber);
            }
            return Err(LutError::InvalidNumber);
        }
        if toks.len() < 2 {
            proof {
                lemma_cube_fold_err(lv, i + 1, LutError::MissingComponent);
            }
            return Err(LutError::MissingComponent);
        }
        proof {
            assert(spec_views(toks@)[1] == toks@[1]@);
        }
        if !is_float_token(&toks[1]) {
            proof {
                lemma_cube_fold_err(lv, i + 1, LutError::InvalidNumber);
            }
            return Err(LutError::InvalidNumber);
        }
        if toks.len() < 3 {
            proof {
                lemma_cube_fold_err(lv, i + 1, LutError::MissingComponent);
            }
            return Err(LutError::MissingComponent);
        }
        proof {
            assert(spec_views(toks@)[2] == toks@[2]@);
        }
        if !is_float_token(&toks[2]) {
            proof {
                lemma_cube_fold_err(lv, i + 1, LutError::InvalidNumber);
            }
            return Err(LutError::InvalidNumber);
        }
        let ghost olddata = spec_views(data@);
        let t0 = toks.remove(0);
        let t1 = toks.remove(0);
        let t2 = toks.remove(0);
        data.push(t0);
        data.push(t1);
        data.push(t2);
        proof {
            assert(spec_views(data@) =~= olddata + seq![t0@, t1@, t2@]);
            assert(spec_cube_line(st, lv[i as int]) == Ok::<CubeState, LutError>(
                CubeState { size: size_opt, data: spec_views(data@) }));
        }
        i += 1;
    }
    proof {
        assert(lv.take(lines@.len() as int) =~= lv);
    }
    let n = match size_opt {
        Some(n) => n,
        None => {
            return Err(LutError::SizeNotDeclared);
        },
    };
    let dl = data.len();
    proof {
        assert((1832031int * 1832031 * 1832031 * 3) <= 0xffff_ffff_ffff_ffffint);
        assert((1832032int * 1832032 * 1832032 * 3) > 0xffff_ffff_ffff_ffffint);
    }
    if n > 1_832_031 {
        proof {
            assert((n as int) * (n as int) * (n as int) * 3
                >= 1832032int * 1832032 * 1832032 * 3) by (nonlinear_arith)
                requires n >= 1832032int;
            assert(dl < n * n * n * 3);
        }
        return Err(LutError::SizeMismatch);
    }
    proof {
        assert((n as int) * (n as int) <= 1832031int * 1832031
            && (n as int) * (n as int) * (n as int) <= 1832031int * 1832031 * 1832031
            && (n as int) * (n as int) * (n as int) * 3
                <= 1832031int * 1832031 * 1832031 * 3) by (nonlinear_arith)
            requires n <= 1832031int;
        assert((1832031int * 1832031) < 0x1_0000_0000_0000_0000int);
        assert((1832031int * 1832031 * 1832031) < 0x1_0000_0000_0000_0000int);
    }
    let expected: u64 = (n as u64) * (n as u64) * (n as u64) * 3;
    if (dl as u64) != expected {
        return Err(LutError::SizeMismatch);
    }
    Ok(Lut { size: n, data: LutData::Tokens(data) })
}

/// One line of a `.3dl` file applied to the gathered samples: blank
/// lines and comments are skipped, a line of exactly three tokens must
/// be three valid numeric tokens and is appended, and every other line
/// is silently skipped (some `.3dl` variants carry header lines).
pub open spec fn spec_3dl_line(data: Seq<Seq<u8>>, line: Seq<u8>) -> Result<
    Seq<Seq<u8>>,
    LutError,
> {
    let toks = spec_tokens(line);
    if toks.len() == 0 {
        Ok(data)
    } else if toks[0][0] == 35 {
        Ok(data)
    } else if toks.len() == 3 {
        if !spec_is_float_token(toks[0]) {
            Err(LutError::InvalidNumber)
        } else if !spec_is_float_token(toks[1]) {
            Err(LutError::InvalidNumber)
        } else if !spec_is_float_token(toks[2]) {
            Err(LutError::InvalidNumber)
        } else {
            Ok(data + seq![toks[0], toks[1], toks[2]])
        }
    } else {
        Ok(data)
    }
}

/// The samples gathered from the lines read so far, first line first.
pub open spec fn spec_3dl_fold(lines: Seq<Seq<u8>>) -> Result<Seq<Seq<u8>>, LutError>
    decreases lines.len(),
{
    if lines.len() == 0 {
        Ok(Seq::empty())
    } else {
        match spec_3dl_fold(lines.drop_last()) {
            Ok(data) => spec_3dl_line(data, lines.last()),
            Err(e) => Err(e),
        }
    }
}

/// What a `.3dl` source parses to: the gathered triples, requiring at
/// least one, with the size inferred as the integer cube root of the
/// triple count, which must reproduce the count exactly when cubed.
pub open spec fn spec_parse_3dl(lines: Seq<Seq<u8>>) -> Result<LutView, LutError> {
    match spec_3dl_fold(lines) {
        Err(e) => Err(e),
        Ok(data) => {
            if data.len() == 0 {
                Err(LutError::EmptyData)
            } else if !spec_is_cube(data.len() as int / 3) {
                Err(LutError::NonCubicData)
            } else {
                Ok(LutView {
                    size: (choose|t: int| 0 <= t && #[trigger] (t * t * t)
                        == data.len() as int / 3) as u32,
                    data: LutDataView::Tokens(data),
                })
            }
        },
    }
}

/// An error in any prefix of the lines is the error of the whole fold.
proof fn lemma_3dl_fold_err(lines: Seq<Seq<u8>>, i: int, e: LutError)
    requires
        0 <= i <= lines.len(),
        spec_3dl_fold(lines.take(i)) == Err::<Seq<Seq<u8>>, LutError>(e),
    ensures
        spec_3dl_fold(lines) == Err::<Seq<Seq<u8>>, LutError>(e),
    decreases lines.len() - i,
{
    if i < lines.len() {
        assert(lines.take(i + 1).drop_last() =~= lines.take(i));
        lemma_3dl_fold_err(lines, i + 1, e);
    } else {
        assert(lines.take(i) =~= lines);
    }
}

/// Parse the lines of a `.3dl` file; exact per `spec_parse_3dl`, and
/// every returned grid satisfies the `size³ × 3` invariant.
pub fn parse_3dl(lines: &Vec<Vec<u8>>) -> (r: Result<Lut, LutError>)
    ensures
        r matches Ok(l) ==> Ok::<LutView, LutError>(l@) == spec_parse_3dl(spec_views(lines@))
            && l.wf(),
        r matches Err(e) ==> Err::<LutView, LutError>(e) == spec_parse_3dl(spec_views(lines@)),
{
    let ghost lv: Seq<Seq<u8>> = spec_views(lines@);
    let mut data: Vec<Vec<u8>> = Vec::new();
    let mut i: usize = 0;
    proof {
        assert(lv.take(0) =~= Seq::<Seq<u8>>::empty());
        assert(spec_views(data@) =~= Seq::<Seq<u8>>::empty());
    }
    while i < lines.len()
        invariant
            lv == spec_views(lines@),
            lv.len() == lines@.len(),
            i <= lines@.len(),
            data@.len() % 3 == 0,
            spec_3dl_fold(lv.take(i as int)) == Ok::<Seq<Seq<u8>>, LutError>(spec_views(data@)),
        decreases lines@.len() - i,
    {
        let ghost olddata = spec_views(data@);
        let mut toks = tokenize(&lines[i]);
        proof {
            assert(lv[i as int] == lines@[i as int]@);
            assert(lv.take(i + 1).drop_last() =~= lv.take(i as int));
            assert(lv.take(i + 1).last() == lv[i as int]);
            lemma_tokens_each_nonempty(lv[i as int]);
            assert(spec_views(toks@) == spec_tokens(lv[i as int]));
        }
        if toks.len() == 0 {
            i += 1;
            continue;
        }
        proof {
            assert(spec_views(toks@)[0] == toks@[0]@);
            assert(toks@[0]@.len() > 0);
        }
        if toks[0][0] == 35 {
            i += 1;
            continue;
        }
        if toks.len() == 3 {
            proof {
                assert(spec_views(toks@)[1] == toks@[1]@);
                assert(spec_views(toks@)[2] == toks@[2]@);
            }
            if !is_float_token(&toks[0]) {
                proof {
                    lemma_3dl_fold_err(lv, i + 1, LutError::InvalidNumber);
                }
                return Err(LutError::InvalidNumber);
            }
            if !is_float_token(&toks[1]) {
                proof {
                    lemma_3dl_fold_err(lv, i + 1, LutError::InvalidNumber);
                }
                return Err(LutError::InvalidNumber);
            }
            if !is_float_token(&toks[2]) {
                proof {
                    lemma_3dl_fold_err(lv, i + 1, LutError::InvalidNumber);
                }
                return Err(LutError::InvalidNumber);
            }
            let t0 = toks.remove(0);
            let t1 = toks.remove(0);
            let t2 = toks.remove(0);
            data.push(t0);
            data.push(t1);
            data.push(t2);
            proof {
                assert(spec_views(data@) =~= olddata + seq![t0@, t1@, t2@]);
            }
        }
        i += 1;
    }
    proof {
        assert(lv.take(lines@.len() as int) =~= lv);
    }
    if data.len() == 0 {
        return Err(LutError::EmptyData);
    }
    let entries: usize = data.len() / 3;
    let s = int_cube_root(entries as u64);
    proof {
        lemma_cube_unique(entries as int, s as int);
        assert((s as int) * (s as int) <= 2642245int * 2642245) by (nonlinear_arith)
            requires s <= 2642245int;
        assert((2642245int * 2642245) < 0x1_0000_0000_0000_0000int);
    }
    if s * s * s != entries as u64 {
        return Err(LutError::NonCubicData);
    }
    proof {
        assert(data@.len() == entries * 3);
    }
    Ok(Lut { size: s as u32, data: LutData::Tokens(data) })
}

/// What a square HALD image of a cubic pixel count parses to: each
/// pixel's three channel bytes in raster order; any other image is
/// rejected.
pub open spec fn spec_parse_hald(w: u32, h: u32, pixels: Seq<u8>) -> Result<LutView, LutError> {
    if w != h {
        Err(LutError::NotSquare)
    } else if !spec_is_cube((w as int) * (h as int)) {
        Err(LutError::NonCubicPixels)
    } else {
        Ok(LutView {
            size: (choose|t: int| 0 <= t && #[trigger] (t * t * t)
                == (w as int) * (h as int)) as u32,
            data: LutDataView::Channels(pixels),
        })
    }
}

/// Ingest a decoded HALD image of `width` by `height` RGB pixels;
/// exact per `spec_parse_hald`. A non-square image always fails; a
/// square one fails exactly when its pixel count is not a perfect
/// cube, and otherwise the re-derived size cubed reproduces the pixel
/// count and the grid satisfies the `size³ × 3` invariant.
pub fn parse_hald(width: u32, height: u32, pixels: &Vec<u8>) -> (r: Result<Lut, LutError>)
    requires
        pixels@.len() == width * height * 3,
    ensures
        r matches Ok(l) ==> Ok::<LutView, LutError>(l@)
            == spec_parse_hald(width, height, pixels@) && l.wf()
            && (l.size * l.size * l.size) == width * height,
        r matches Err(e) ==> Err::<LutView, LutError>(e)
            == spec_parse_hald(width, height, pixels@),
{
    if width != height {
        return Err(LutError::NotSquare);
    }
    proof {
        assert((width as int) * (height as int) <= 0xffff_ffffint * 0xffff_ffff)
            by (nonlinear_arith)
            requires width <= 0xffff_ffffint && height <= 0xffff_ffffint;
        assert(0xffff_ffffint * 0xffff_ffff < 0x1_0000_0000_0000_0000int);
    }
    let total: u64 = (width as u64) * (height as u64);
    let s = int_cube_root(total);
    proof {
        lemma_cube_unique(total as int, s as int);
        assert((s as int) * (s as int) <= 2642245int * 2642245) by (nonlinear_arith)
            requires s <= 2642245int;
        assert((2642245int * 2642245) < 0x1_0000_0000_0000_0000int);
    }
    if s * s * s != total {
        return Err(LutError::NonCubicPixels);
    }
    let data = pixels.clone();
    proof {
        assert(data@ =~= pixels@);
    }
    Ok(Lut { size: s as u32, data: LutData::Channels(data) })
}

/// Every sample token of a token-form grid is a valid numeric token.
pub open spec fn spec_tokens_valid(t: Seq<Seq<u8>>) -> bool {
    forall|q: int| 0 <= q < t.len() ==> spec_is_float_token(#[trigger] t[q])
}

/// The `LUT_3D_SIZE` line a grid of size `n` is written back with.
pub open spec fn spec_cube_size_line(n: u32) -> Seq<u8> {
    spec_kw_size() + seq![32u8] + spec_u32_dec(n as int)
}

/// A data line of three sample tokens separated by single spaces.
pub open spec fn spec_cube_triple_line(a: Seq<u8>, b: Seq<u8>, c: Seq<u8>) -> Seq<u8> {
    a + seq![32u8] + b + seq![32u8] + c
}

/// The lines a token-form grid is written back out as: the size line,
/// then one line per sample triple in grid order.
pub open spec fn spec_cube_lines(n: u32, data: Seq<Seq<u8>>) -> Seq<Seq<u8>> {
    seq![spec_cube_size_line(n)] + Seq::new(
        (data.len() as int / 3) as nat,
        |i: int| spec_cube_triple_line(data[3 * i], data[3 * i + 1], data[3 * i + 2]),
    )
}

/// A written data line splits back into exactly its three tokens.
proof fn lemma_triple_line_tokens(a: Seq<u8>, b: Seq<u8>, c: Seq<u8>)
    requires
        spec_is_float_token(a),
        spec_is_float_token(b),
        spec_is_float_token(c),
    ensures
        spec_tokens(spec_cube_triple_line(a, b, c)) == seq![a, b, c],
{
    lemma_float_token_shape(a);
    lemma_float_token_shape(b);
    lemma_float_token_shape(c);
    let tail_c: Seq<u8> = Seq::empty();
    assert(c + tail_c =~= c);
    lemma_tokens_prepend(c, tail_c);
    assert(spec_tokens(c) == seq![c] + spec_tokens(tail_c));
    assert(spec_tokens(c) =~= seq![c]);
    lemma_tokens_ws(32u8, c);
    assert(spec_tokens(seq![32u8] + c) == spec_tokens(c));
    lemma_tokens_prepend(b, seq![32u8] + c);
    assert((seq![32u8] + c)[0] == 32);
    assert(spec_tokens(b + (seq![32u8] + c)) == seq![b] + spec_tokens(seq![32u8] + c));
    assert(spec_tokens(b + (seq![32u8] + c)) =~= seq![b, c]);
    lemma_tokens_ws(32u8, b + (seq![32u8] + c));
    lemma_tokens_prepend(a, seq![32u8] + (b + (seq![32u8] + c)));
    assert(spec_tokens(a + (seq![32u8] + (b + (seq![32u8] + c))))
        =~= seq![a] + spec_tokens(b + (seq![32u8] + c)));
    assert(spec_cube_triple_line(a, b, c) =~= a + (seq![32u8] + (b + (seq![32u8] + c))));
    assert(spec_tokens(spec_cube_triple_line(a, b, c)) =~= seq![a, b, c]);
}

/// The written size line splits back into the keyword and the number.
proof fn lemma_size_line_tokens(n: u32)
    ensures
        spec_tokens(spec_cube_size_line(n)) == seq![spec_kw_size(), spec_u32_dec(n as int)],
{
    lemma_u32_dec(n as int);
    let d = spec_u32_dec(n as int);
    assert forall|k: int| 0 <= k < d.len() implies !spec_is_ws(#[trigger] d[k]) by {
        assert(spec_is_digit(d[k]));
    }
    let tail: Seq<u8> = Seq::empty();
    assert(d + tail =~= d);
    lemma_tokens_prepend(d, tail);
    assert(spec_tokens(d) =~= seq![d]);
    lemma_tokens_ws(32u8, d);
    assert forall|k: int| 0 <= k < spec_kw_size().len() implies
        !spec_is_ws(#[trigger] spec_kw_size()[k]) by {
    }
    lemma_tokens_prepend(spec_kw_size(), seq![32u8] + d);
    assert(spec_tokens(spec_kw_size() + (seq![32u8] + d)) =~= seq![spec_kw_size(), d]);
    assert(spec_cube_size_line(n) =~= spec_kw_size() + (seq![32u8] + d));
}

/// Reading the written size line sets the size and nothing else.
proof fn lemma_cube_line_size(st: CubeState, n: u32)
    ensures
        spec_cube_line(st, spec_cube_size_line(n)) == Ok::<CubeState, LutError>(
            CubeState { size: Some(n), data: st.data }),
{
    lemma_size_line_tokens(n);
    lemma_u32_dec(n as int);
    let toks = spec_tokens(spec_cube_size_line(n));
    assert(toks[0] == spec_kw_size());
    assert(toks[0][0] == 76);
    assert(!spec_eq_ci(toks[0], spec_kw_title()));
    assert(spec_eq_ci(toks[0], spec_kw_size()));
    assert(toks[1] == spec_u32_dec(n as int));
    assert(spec_parse_u32(toks[1]) == Some(n));
}

/// Reading back a written data line appends exactly its three tokens.
proof fn lemma_cube_line_triple(st: CubeState, a: Seq<u8>, b: Seq<u8>, c: Seq<u8>)
    requires
        st.size is Some,
        spec_is_float_token(a),
        spec_is_float_token(b),
        spec_is_float_token(c),
    ensures
        spec_cube_line(st, spec_cube_triple_line(a, b, c)) == Ok::<CubeState, LutError>(
            CubeState { size: st.size, data: st.data + seq![a, b, c] }),
{
    lemma_triple_line_tokens(a, b, c);
    lemma_float_token_shape(a);
    let toks = spec_tokens(spec_cube_triple_line(a, b, c));
    assert(toks[0] == a && toks[1] == b && toks[2] == c);
    assert(toks[0][0] != 35);
    if spec_eq_ci(toks[0], spec_kw_title()) {
        assert(spec_lower(a[0]) == spec_lower(spec_kw_title()[0]));
        assert(spec_kw_title()[0] == 84);
        assert(false);
    }
    if spec_eq_ci(toks[0], spec_kw_size()) {
        assert(spec_lower(a[0]) == spec_lower(spec_kw_size()[0]));
        assert(spec_kw_size()[0] == 76);
        assert(false);
    }
}

/// Folding the size line and the first `m` written triple lines
/// recovers the size and the first `3m` sample tokens.
proof fn lemma_cube_written_fold(n: u32, data: Seq<Seq<u8>>, m: int)
    requires
        0 <= m,
        3 * m <= data.len(),
        data.len() % 3 == 0,
        spec_tokens_valid(data),
    ensures
        spec_cube_fold(spec_cube_lines(n, data).take(1 + m)) == Ok::<CubeState, LutError>(
            CubeState { size: Some(n), data: data.take(3 * m) }),
    decreases m,
{
    let lines = spec_cube_lines(n, data);
    assert(lines.len() == 1 + data.len() as int / 3);
    assert(3 * m <= 3 * (data.len() as int / 3));
    assert(m <= data.len() as int / 3);
    if m == 0 {
        let t = lines.take(1);
        assert(t.len() == 1);
        assert(t.drop_last() =~= Seq::<Seq<u8>>::empty());
        assert(t.last() == lines[0]);
        assert(lines[0] == spec_cube_size_line(n));
        let st0 = CubeState { size: None, data: Seq::empty() };
        assert(spec_cube_fold(t.drop_last()) == Ok::<CubeState, LutError>(st0));
        lemma_cube_line_size(st0, n);
        assert(spec_cube_fold(t) == spec_cube_line(st0, t.last()));
        assert(data.take(0) =~= Seq::<Seq<u8>>::empty());
    } else {
        lemma_cube_written_fold(n, data, m - 1);
        let t = lines.take(1 + m);
        assert(t.drop_last() =~= lines.take(1 + (m - 1)));
        assert(t.last() == lines[m]);
        assert(lines[m] == spec_cube_triple_line(
            data[3 * (m - 1)], data[3 * (m - 1) + 1], data[3 * (m - 1) + 2]));
        let st = CubeState { size: Some(n), data: data.take(3 * (m - 1)) };
        assert(spec_cube_fold(t.drop_last()) == Ok::<CubeState, LutError>(st));
        lemma_cube_line_triple(st, data[3 * (m - 1)], data[3 * (m - 1) + 1],
            data[3 * (m - 1) + 2]);
        assert(spec_cube_fold(t) == spec_cube_line(st, t.last()));
        assert(data.take(3 * (m - 1)) + seq![
            data[3 * (m - 1)], data[3 * (m - 1) + 1], data[3 * (m - 1) + 2]
        ] =~= data.take(3 * m));
    }
}

/// Every sample token a successful `.cube` fold gathers is a valid
/// numeric token.
proof fn lemma_cube_fold_valid(lines: Seq<Seq<u8>>)
    ensures
        spec_cube_fold(lines) matches Ok(st) ==> spec_tokens_valid(st.data)
            && st.data.len() % 3 == 0,
    decreases lines.len(),
{
    if lines.len() > 0 {
        lemma_cube_fold_valid(lines.drop_last());
        match spec_cube_fold(lines.drop_last()) {
            Err(_) => {},
            Ok(st) => {
                match spec_cube_line(st, lines.last()) {
                    Err(_) => {},
                    Ok(st2) => {
                        let toks = spec_tokens(lines.last());
                        if st2.data == st.data {
                        } else {
                            assert(st2.data == st.data + seq![toks[0], toks[1], toks[2]]);
                            assert forall|q: int| 0 <= q < st2.data.len() implies
                                spec_is_float_token(#[trigger] st2.data[q]) by {
                                if q >= st.data.len() {
                                    assert(st2.data[q]
                                        == seq![toks[0], toks[1], toks[2]][q - st.data.len()]);
                                }
                            }
                        }
                    },
                }
            },
        }
    }
}

/// Writing a parsed `.cube` grid back out — its size line and its
/// sample triples, in order — and re-parsing it reproduces the same
/// size and byte-identical sample tokens: the parser is a pure
/// function of the file content and the written form loses nothing.
pub proof fn lemma_cube_round_trip(n: u32, data: Seq<Seq<u8>>)
    requires
        data.len() == n * n * n * 3,
        spec_tokens_valid(data),
    ensures
        spec_parse_cube(spec_cube_lines(n, data)) == Ok::<LutView, LutError>(
            LutView { size: n, data: LutDataView::Tokens(data) }),
{
    let e = (n as int) * (n as int) * (n as int);
    assert(data.len() == e * 3);
    assert((e * 3) % 3 == 0) by (nonlinear_arith);
    let m = data.len() as int / 3;
    assert(m * 3 == data.len());
    lemma_cube_written_fold(n, data, m);
    let lines = spec_cube_lines(n, data);
    assert(lines.take(1 + m) =~= lines);
    assert(data.take(3 * m) =~= data);
}

/// A grid parsed from a `.cube` source always carries valid numeric
/// tokens, so the round-trip law applies to everything the parser
/// returns.
pub proof fn lemma_parse_cube_tokens_valid(lines: Seq<Seq<u8>>)
    ensures
        spec_parse_cube(lines) matches Ok(v) ==> (v.data matches LutDataView::Tokens(t)
            && spec_tokens_valid(t)),
{
    lemma_cube_fold_valid(lines);
}

} // verus!

//! Geometric correction for the 8 standard EXIF orientation values,
//! applied to an RGBA buffer as a pure pixel permutation.

use vstd::prelude::*;
use crate::pixel::Rgba8Image;
use crate::pixel::lemma_grid_index;

verus! {

/// Orientation values 5 to 8 exchange the roles of the two axes, so the
/// corrected image has the width and height of the source swapped.
pub open spec fn spec_swaps_axes(o: u32) -> bool {
    o == 5 || o == 6 || o == 7 || o == 8
}

/// Column of the source pixel that lands at (x, y) of the corrected
/// image, for source dimensions `w` by `h`. Orientation 1, and every
/// value outside 2..=8, leaves the image untouched.
pub open spec fn spec_src_x(o: u32, w: int, h: int, x: int, y: int) -> int {
    if o == 2 { w - 1 - x }       // mirrored horizontally
    else if o == 3 { w - 1 - x }  // rotated 180 degrees
    else if o == 4 { x }          // mirrored vertically
    else if o == 5 { y }          // mirrored along the main diagonal
    else if o == 6 { y }          // rotated 90 degrees clockwise
    else if o == 7 { w - 1 - y }  // mirrored along the anti-diagonal
    else if o == 8 { w - 1 - y }  // rotated 270 degrees clockwise
    else { x }
}

/// Row of the source pixel that lands at (x, y) of the corrected image.
pub open spec fn spec_src_y(o: u32, w: int, h: int, x: int, y: int) -> int {
    if o == 2 { y }
    else if o == 3 { h - 1 - y }
    else if o == 4 { h - 1 - y }
    else if o == 5 { x }
    else if o == 6 { h - 1 - x }
    else if o == 7 { h - 1 - x }
    else if o == 8 { x }
    else { y }
}

/// Two flat pixel indices in a grid of width `w` agree only when their
/// coordinates agree.
pub proof fn lemma_grid_unique(xx: int, yy: int, x: int, y: int, w: int)
    requires
        0 <= xx < w,
        0 <= x < w,
        yy * w + xx == y * w + x,
    ensures
        yy == y && xx == x,
{
    assert(yy == y && xx == x) by (nonlinear_arith)
        requires 0 <= xx < w && 0 <= x < w && yy * w + xx == y * w + x;
}

/// Apply the geometric correction named by the EXIF orientation value
/// `o` to `img`: every pixel of the result is the source pixel given by
/// `spec_src_x` / `spec_src_y`, and orientations 5 to 8 swap the
/// dimensions. Values outside 2..=8 (including the upright value 1 and
/// anything unrecognised) return the image unchanged.
pub fn apply_orientation(img: Rgba8Image, o: u32) -> (r: Rgba8Image)
    requires
        img.wf(),
    ensures
        r.wf(),
        r.width == if spec_swaps_axes(o) { img.height } else { img.width },
        r.height == if spec_swaps_axes(o) { img.width } else { img.height },
        forall|x: int, y: int, c: int|
            0 <= x < r.width && 0 <= y < r.height && 0 <= c < 4 ==>
                #[trigger] r.at(x, y, c) == img.at(
                    spec_src_x(o, img.width as int, img.height as int, x, y),
                    spec_src_y(o, img.width as int, img.height as int, x, y),
                    c,
                ),
        o == 6 ==> r.width == img.height && r.height == img.width,
        (o < 2 || o > 8) ==> r == img,
{
    if o < 2 || o > 8 {
        return img;
    }
    let w = img.width;
    let h = img.height;
    let (nw, nh): (u32, u32) = if o >= 5 { (h, w) } else { (w, h) };
    let ghost wi = w as int;
    let ghost hi = h as int;
    let n: usize = img.data.len();
    assert(n == img.data@.len() && w * h * 4 <= usize::MAX);
    assert(nw * nh * 4 == w * h * 4) by (nonlinear_arith)
        requires (nw == w && nh == h) || (nw == h && nh == w);
    let nwu = nw as usize;
    let nhu = nh as usize;
    let mut out: Vec<u8> = Vec::new();
    let mut y: usize = 0;
    while y < nhu
        invariant
            img.wf(),
            w == img.width && h == img.height,
            2 <= o <= 8,
            (o >= 5 ==> nw == h && nh == w) && (o < 5 ==> nw == w && nh == h),
            nwu == nw && nhu == nh,
            wi == w && hi == h,
            w * h * 4 <= usize::MAX,
            nw * nh * 4 == w * h * 4,
            y <= nhu,
            out@.len() == y * nwu * 4,
            forall|xx: int, yy: int, c: int|
                0 <= xx < nw && 0 <= yy < nh && 0 <= c < 4
                    && yy * nw + xx < y * nwu ==>
                    out@[(yy * nw + xx) * 4 + c] == img.at(
                        spec_src_x(o, wi, hi, xx, yy),
                        spec_src_y(o, wi, hi, xx, yy),
                        c,
                    ),
        decreases nhu - y,
    {
        let mut x: usize = 0;
        while x < nwu
            invariant
                img.wf(),
                w == img.width && h == img.height,
                2 <= o <= 8,
                (o >= 5 ==> nw == h && nh == w) && (o < 5 ==> nw == w && nh == h),
                nwu == nw && nhu == nh,
                wi == w && hi == h,
                w * h * 4 <= usize::MAX,
                nw * nh * 4 == w * h * 4,
                y < nhu,
                x <= nwu,
                out@.len() == (y * nwu + x) * 4,
                forall|xx: int, yy: int, c: int|
                    0 <= xx < nw && 0 <= yy < nh && 0 <= c < 4
                        && yy * nw + xx < y * nwu + x ==>
                        out@[(yy * nw + xx) * 4 + c] == img.at(
                            spec_src_x(o, wi, hi, xx, yy),
                            spec_src_y(o, wi, hi, xx, yy),
                            c,
                        ),
            decreases nwu - x,
        {
            proof {
                lemma_grid_index(x as int, y as int, nw as int, nh as int);
            }
            let sx: usize = if o == 2 || o == 3 {
                (w as usize) - 1 - x
            } else if o == 4 {
                x
            } else if o == 5 || o == 6 {
                y
            } else {
                (w as usize) - 1 - y
            };
            let sy: usize = if o == 2 {
                y
            } else if o == 3 || o == 4 {
                (h as usize) - 1 - y
            } else if o == 5 || o == 8 {
                x
            } else {
                (h as usize) - 1 - x
            };
            proof {
                assert(sx == spec_src_x(o, wi, hi, x as int, y as int));
                assert(sy == spec_src_y(o, wi, hi, x as int, y as int));
                assert(sx < w);
                assert(sy < h);
                lemma_grid_index(sx as int, sy as int, w as int, h as int);
            }
            let base: usize = (sy * (w as usize) + sx) * 4;
            let ghost prev: Seq<u8> = out@;
            let mut c: usize = 0;
            while c < 4
                invariant
                    img.wf(),
                    w == img.width && h == img.height,
                    w * h * 4 <= usize::MAX,
                    sy * w + sx < w * h,
                    base == (sy * w + sx) * 4,
                    c <= 4,
                    out@.len() == prev.len() + c,
                    forall|i: int| 0 <= i < prev.len() ==> out@[i] == prev[i],
                    forall|i: int| prev.len() <= i < prev.len() + c ==>
                        #[trigger] out@[i] == img.data@[base + (i - prev.len())],
                decreases 4 - c,
            {
                out.push(img.data[base + c]);
                c += 1;
            }
            proof {
                let p = y * nwu + x;
                assert(prev.len() == p * 4);
                assert forall|xx: int, yy: int, cc: int|
                    0 <= xx < nw && 0 <= yy < nh && 0 <= cc < 4
                        && yy * nw + xx < y * nwu + (x + 1) implies
                    out@[(yy * nw + xx) * 4 + cc] == img.at(
                        spec_src_x(o, wi, hi, xx, yy),
                        spec_src_y(o, wi, hi, xx, yy),
                        cc,
                    ) by {
                    let q = yy * nw + xx;
                    if q < p {
                        assert(q * 4 + cc < p * 4);
                        assert(out@[q * 4 + cc] == prev[q * 4 + cc]);
                    } else {
                        assert(q == p);
                        lemma_grid_unique(xx, yy, x as int, y as int, nw as int);
                        assert(out@[p * 4 + cc] == img.data@[base + cc]);
                    }
                }
            }
            x += 1;
        }
        proof {
            assert((y * nwu + nwu) * 4 == (y + 1) * nwu * 4) by (nonlinear_arith);
        }
        y += 1;
    }
    let r = Rgba8Image { width: nw, height: nh, data: out };
    proof {
        assert(nhu * nwu == nw * nh) by (nonlinear_arith)
            requires nwu == nw && nhu == nh;
        assert(r.wf());
        assert forall|x: int, y2: int, c: int|
            0 <= x < r.width && 0 <= y2 < r.height && 0 <= c < 4 implies
            #[trigger] r.at(x, y2, c) == img.at(
                spec_src_x(o, wi, hi, x, y2),
                spec_src_y(o, wi, hi, x, y2),
                c,
            ) by {
            lemma_grid_index(x, y2, nw as int, nh as int);
            assert(y2 * nw + x < nh * nwu) by (nonlinear_arith)
                requires 0 <= x < nw && 0 <= y2 < nh && nwu == nw;
        }
    }
    r
}

} // verus!

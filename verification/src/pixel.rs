//! Pixel buffer types and the per-pixel alpha blend used when a patch
//! layer is composited onto the working image.

use vstd::prelude::*;

verus! {

/// An RGBA pixel buffer: `width * height` pixels, 4 bytes each,
/// row-major, channels interleaved R, G, B, A.
#[derive(Debug)]
pub struct Rgba8Image {
    pub width: u32,
    pub height: u32,
    pub data: Vec<u8>,
}

/// An RGB pixel buffer: `width * height` pixels, 3 bytes each,
/// row-major, channels interleaved R, G, B.
#[derive(Debug)]
pub struct Rgb8Image {
    pub width: u32,
    pub height: u32,
    pub data: Vec<u8>,
}

/// A single-channel blend-weight grid, one byte per pixel, row-major,
/// sized to the image it will be blended over.
#[derive(Debug)]
pub struct MaskBitmap {
    pub width: u32,
    pub height: u32,
    pub data: Vec<u8>,
}

impl Rgba8Image {
    /// The buffer holds exactly 4 bytes for each of its pixels.
    pub open spec fn wf(self) -> bool {
        self.data@.len() == self.width * self.height * 4
    }

    /// Channel `c` of the pixel at column `x`, row `y`.
    pub open spec fn at(self, x: int, y: int, c: int) -> u8 {
        self.data@[(y * self.width + x) * 4 + c]
    }
}

impl Rgb8Image {
    /// The buffer holds exactly 3 bytes for each of its pixels.
    pub open spec fn wf(self) -> bool {
        self.data@.len() == self.width * self.height * 3
    }

    /// Channel `c` of the pixel at column `x`, row `y`.
    pub open spec fn at(self, x: int, y: int, c: int) -> u8 {
        self.data@[(y * self.width + x) * 3 + c]
    }
}

impl MaskBitmap {
    /// The grid holds exactly one byte per pixel.
    pub open spec fn wf(self) -> bool {
        self.data@.len() == self.width * self.height
    }

    /// The blend weight of the pixel at column `x`, row `y`.
    pub open spec fn at(self, x: int, y: int) -> u8 {
        self.data@[y * self.width + x]
    }
}

/// Blend weight arithmetic for one 8-bit channel: the mask value `m`
/// weights the patch channel `p` against the base channel `b`,
/// `round((p*m + b*(255-m)) / 255)` with rounding to the nearest
/// integer (ties cannot occur: the numerator is an integer and 255
/// is odd, so the exact quotient is never half way).
pub open spec fn spec_blend_channel(p: u8, b: u8, m: u8) -> u8 {
    (((p * m + b * (255 - m)) + 127) / 255) as u8
}

/// One blended channel value; exact per `spec_blend_channel`.
pub fn blend_channel(p: u8, b: u8, m: u8) -> (r: u8)
    ensures
        r == spec_blend_channel(p, b, m),
{
    proof {
        assert(p * m <= 255 * m && b * (255 - m) <= 255 * (255 - m)) by (nonlinear_arith)
            requires p <= 255 && b <= 255 && m <= 255;
    }
    let num: u32 = (p as u32) * (m as u32) + (b as u32) * (255 - m as u32) + 127;
    (num / 255) as u8
}

/// The byte at flat index `i` of an RGBA buffer after one patch layer is
/// blended over it: for a colour channel of a pixel whose mask weight is
/// positive, the blend of the patch channel and the base channel; for the
/// alpha channel, and wherever the mask weight is zero, the base byte
/// unchanged.
pub open spec fn spec_blended_byte(
    buf: Seq<u8>,
    color: Seq<u8>,
    mask: Seq<u8>,
    i: int,
) -> u8 {
    let pix = i / 4;
    let c = i % 4;
    if c < 3 && mask[pix] > 0 {
        spec_blend_channel(color[pix * 3 + c], buf[i], mask[pix])
    } else {
        buf[i]
    }
}

/// A whole RGBA buffer after one patch layer is blended over it,
/// byte for byte per `spec_blended_byte`.
pub open spec fn spec_blend_image(buf: Seq<u8>, color: Seq<u8>, mask: Seq<u8>) -> Seq<u8> {
    Seq::new(buf.len(), |i: int| spec_blended_byte(buf, color, mask, i))
}

/// Flat pixel index of (x, y) stays below the pixel count.
pub proof fn lemma_grid_index(x: int, y: int, w: int, h: int)
    requires
        0 <= x < w,
        0 <= y < h,
    ensures
        0 <= y * w + x < w * h,
        (y * w + x) * 4 + 3 < w * h * 4,
        (y * w + x) * 3 + 2 < w * h * 3,
{
    assert(0 <= y * w + x && y * w + x < w * h
        && (y * w + x) * 4 + 3 < w * h * 4
        && (y * w + x) * 3 + 2 < w * h * 3) by (nonlinear_arith)
        requires 0 <= x < w && 0 <= y < h;
}

/// Blend one patch layer into the working RGBA buffer `buf`: wherever the
/// mask weight of a pixel is positive, its R, G and B channels become the
/// weighted blend of the patch colour and the base value; its alpha
/// channel, and every pixel whose mask weight is zero, keep their bytes
/// bit for bit.
pub fn blend_into(buf: &mut Vec<u8>, w: u32, h: u32, color: &Rgb8Image, mask: &MaskBitmap)
    requires
        old(buf)@.len() == w * h * 4,
        color.wf() && color.width == w && color.height == h,
        mask.wf() && mask.width == w && mask.height == h,
    ensures
        final(buf)@ == spec_blend_image(old(buf)@, color.data@, mask.data@),
{
    let ghost orig: Seq<u8> = buf@;
    let ghost target: Seq<u8> = spec_blend_image(orig, color.data@, mask.data@);
    let n: usize = buf.len();
    assert(n == buf@.len() && w * h * 4 <= usize::MAX);
    let wu = w as usize;
    let hu = h as usize;
    let mut y: usize = 0;
    while y < hu
        invariant
            buf@.len() == orig.len() == w * h * 4,
            w * h * 4 <= usize::MAX,
            color.wf() && color.width == w && color.height == h,
            mask.wf() && mask.width == w && mask.height == h,
            wu == w && hu == h,
            y <= hu,
            target == spec_blend_image(orig, color.data@, mask.data@),
            forall|i: int| 0 <= i < orig.len() ==>
                buf@[i] == (if i / 4 < y * wu { target[i] } else { orig[i] }),
        decreases hu - y,
    {
        let mut x: usize = 0;
        while x < wu
            invariant
                buf@.len() == orig.len() == w * h * 4,
                color.wf() && color.width == w && color.height == h,
                mask.wf() && mask.width == w && mask.height == h,
                w * h * 4 <= usize::MAX,
                wu == w && hu == h,
                y < hu,
                x <= wu,
                target == spec_blend_image(orig, color.data@, mask.data@),
                forall|i: int| 0 <= i < orig.len() ==>
                    buf@[i] == (if i / 4 < y * wu + x { target[i] } else { orig[i] }),
            decreases wu - x,
        {
            proof {
                lemma_grid_index(x as int, y as int, w as int, h as int);
            }
            let pix: usize = y * wu + x;
            let m: u8 = mask.data[pix];
            if m > 0 {
                let mut c: usize = 0;
                while c < 3
                    invariant
                        buf@.len() == orig.len() == w * h * 4,
                        color.wf() && color.width == w && color.height == h,
                        mask.wf() && mask.width == w && mask.height == h,
                        w * h * 4 <= usize::MAX,
                        wu == w && hu == h,
                        y < hu,
                        x < wu,
                        c <= 3,
                        pix == y * wu + x,
                        pix < w * h,
                        m == mask.data@[pix as int],
                        m > 0,
                        target == spec_blend_image(orig, color.data@, mask.data@),
                        forall|i: int| 0 <= i < orig.len() ==>
                            buf@[i] == (if i < pix * 4 + c { target[i] }
                                else { orig[i] }),
                    decreases 3 - c,
                {
                    let idx: usize = pix * 4 + c;
                    proof {
                        assert(idx < w * h * 4 && pix * 3 + c < w * h * 3
                            && idx / 4 == pix as int && idx % 4 == c as int) by (nonlinear_arith)
                            requires
                                pix < w * h,
                                c < 3,
                                idx == pix * 4 + c;
                    }
                    let v: u8 = blend_channel(color.data[pix * 3 + c], buf[idx], m);
                    buf[idx] = v;
                    proof {
                        assert(buf@[idx as int] == target[idx as int]);
                    }
                    c += 1;
                }
                proof {
                    assert forall|i: int| 0 <= i < orig.len() implies
                        buf@[i] == (if i / 4 < y * wu + x + 1 { target[i] } else { orig[i] }) by {
                        assert((pix * 4 + 3) / 4 == pix as int && pix * 4 / 4 == pix as int
                            && forall|j: int| 0 <= j ==> #[trigger] (j / 4) * 4 <= j < (j / 4) * 4 + 4);
                        if i / 4 == pix as int {
                            assert(pix * 4 <= i < pix * 4 + 4);
                            if i < pix * 4 + 3 {
                                assert(buf@[i] == target[i]);
                            } else {
                                assert(i == pix * 4 + 3);
                                assert(i % 4 == 3) by (nonlinear_arith)
                                    requires i == (y * wu + x) * 4 + 3, 0 <= y * wu + x;
                                assert(target[i] == orig[i]);
                            }
                        }
                    }
                }
            } else {
                proof {
                    assert forall|i: int| 0 <= i < orig.len() implies
                        buf@[i] == (if i / 4 < y * wu + x + 1 { target[i] } else { orig[i] }) by {
                        if i / 4 == pix as int {
                            assert((i / 4) * 4 <= i < (i / 4) * 4 + 4);
                            assert(mask.data@[i / 4] == 0);
                            assert(target[i] == orig[i]);
                        }
                    }
                }
            }
            x += 1;
        }
        proof {
            assert forall|i: int| 0 <= i < orig.len() implies
                buf@[i] == (if i / 4 < (y + 1) * wu { target[i] } else { orig[i] }) by {
            assert(y * wu + wu == (y + 1) * wu) by (nonlinear_arith);
            }
        }
        y += 1;
    }
    proof {
        assert forall|i: int| 0 <= i < orig.len() implies buf@[i] == target[i] by {
            assert(i / 4 < hu * wu) by (nonlinear_arith)
                requires 0 <= i < wu * hu * 4;
            assert(hu * wu == wu * hu) by (nonlinear_arith);
        }
        assert(buf@ =~= target);
    }
}

/// A mask whose weight is zero at every pixel leaves the buffer
/// bit-identical: blending with it is the identity.
pub proof fn lemma_blend_zero_mask(buf: Seq<u8>, color: Seq<u8>, mask: Seq<u8>)
    requires
        forall|p: int| 0 <= p < mask.len() ==> mask[p] == 0,
        buf.len() == mask.len() * 4,
    ensures
        spec_blend_image(buf, color, mask) == buf,
{
    assert forall|i: int| 0 <= i < buf.len() implies
        spec_blend_image(buf, color, mask)[i] == buf[i] by {
        assert(0 <= i / 4 < mask.len()) by (nonlinear_arith)
            requires 0 <= i < mask.len() * 4;
    }
    assert(spec_blend_image(buf, color, mask) =~= buf);
}

/// With a mask weight of 255 the blend hands the patch channel through
/// unchanged: `round((p*255 + b*0) / 255) == p`.
pub proof fn lemma_blend_channel_full(p: u8, b: u8)
    ensures
        spec_blend_channel(p, b, 255) == p,
{
    assert((p * 255 + b * (255 - 255) + 127) / 255 == p as int) by (nonlinear_arith);
}

/// A mask whose weight is 255 at every pixel replaces every colour
/// channel with the patch colour and leaves every alpha byte unchanged.
pub proof fn lemma_blend_full_mask(buf: Seq<u8>, color: Seq<u8>, mask: Seq<u8>, w: int, h: int)
    requires
        forall|p: int| 0 <= p < mask.len() ==> mask[p] == 255,
        buf.len() == w * h * 4,
        color.len() == w * h * 3,
        mask.len() == w * h,
        0 <= w && 0 <= h,
    ensures
        forall|p: int, c: int| 0 <= p < w * h && 0 <= c < 3 ==>
            #[trigger] spec_blend_image(buf, color, mask)[p * 4 + c] == color[p * 3 + c],
        forall|p: int| 0 <= p < w * h ==>
            #[trigger] spec_blend_image(buf, color, mask)[p * 4 + 3] == buf[p * 4 + 3],
{
    assert forall|p: int, c: int| 0 <= p < w * h && 0 <= c < 3 implies
        #[trigger] spec_blend_image(buf, color, mask)[p * 4 + c] == color[p * 3 + c] by {
        let i = p * 4 + c;
        assert(0 <= i < buf.len() && i / 4 == p && i % 4 == c && 0 <= p * 3 + c < color.len())
            by (nonlinear_arith)
            requires 0 <= p < w * h && 0 <= c < 3 && i == p * 4 + c
                && buf.len() == w * h * 4 && color.len() == w * h * 3;
        lemma_blend_channel_full(color[p * 3 + c], buf[i]);
    }
    assert forall|p: int| 0 <= p < w * h implies
        #[trigger] spec_blend_image(buf, color, mask)[p * 4 + 3] == buf[p * 4 + 3] by {
        let i = p * 4 + 3;
        assert(0 <= i < buf.len() && i / 4 == p && i % 4 == 3) by (nonlinear_arith)
            requires 0 <= p < w * h && i == p * 4 + 3 && buf.len() == w * h * 4;
    }
}

} // verus!

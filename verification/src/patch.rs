//! The patch compositing engine: filter the AI patch collection down to
//! its visible entries, decode each patch's embedded colour image, bring
//! it to the canvas size, and alpha-blend it over the working RGBA
//! buffer under the patch's mask, patch after patch in document order.
//!
//! Mask bitmaps are produced by an outside rasterization collaborator
//! from the synthesized mask definitions, one per visible patch, and
//! handed in alongside the patch collection.

use vstd::prelude::*;
use crate::pixel::{Rgba8Image, Rgb8Image, MaskBitmap, spec_blend_image, blend_into,
    lemma_blend_zero_mask, lemma_blend_full_mask};
use crate::decode::{spec_base64_decoded, spec_rgb_decoded, spec_lanczos3, base64_decode,
    decode_rgb, resize_rgb_lanczos3};

verus! {

/// One entry of an `aiPatches` collection, as the surrounding document
/// carries it: every field the document may omit is optional here, and
/// the compositing engine itself decides what an omission means.
/// `sub_masks` holds the patch's primitive mask shapes as opaque
/// documents for the outside mask rasterizer; this engine never reads
/// them.
#[derive(Debug)]
pub struct AiPatch {
    /// The patch's own visibility flag; an absent flag means visible.
    pub visible: Option<bool>,
    /// Layer identifier, required once the patch takes part in a blend.
    pub id: Option<String>,
    /// Layer name, required once the patch takes part in a blend.
    pub name: Option<String>,
    /// Whether the mask is inverted; an absent flag means not inverted.
    pub invert: Option<bool>,
    /// The primitive mask shapes, opaque to this engine.
    pub sub_masks: Vec<String>,
    /// The patch's embedded colour image as base64 text, if present.
    pub color: Option<Vec<u8>>,
}

/// The mask definition handed to the outside mask rasterizer for one
/// patch: always fully visible and at full opacity, since a patch
/// selected for compositing is blended by per-pixel mask intensity
/// alone.
#[derive(Debug)]
pub struct MaskDefinition {
    pub id: String,
    pub name: String,
    pub visible: bool,
    pub invert: bool,
    /// Opacity percentage in 0..=100; fixed to 100 for compositing.
    pub opacity: u8,
    pub sub_masks: Vec<String>,
}

/// Why a compositing call failed.
#[derive(Clone, Copy, PartialEq, Eq, Structural, Debug)]
pub enum CompositeError {
    /// A visible patch lacks the `id` or `name` its mask definition needs.
    MissingPatchInfo,
    /// A visible patch's colour payload is not valid base64.
    InvalidBase64,
    /// A visible patch's decoded colour bytes are not a decodable image.
    UndecodableColor,
    /// A visible patch's colour image has a zero dimension and cannot be
    /// resampled to the canvas.
    EmptyColorImage,
}

/// A patch takes part in compositing exactly when its own visibility
/// flag is not `false` and it carries a non-empty colour payload.
pub open spec fn spec_patch_visible(p: AiPatch) -> bool {
    &&& match p.visible {
        Some(v) => v,
        None => true,
    }
    &&& match p.color {
        Some(c) => c@.len() > 0,
        None => false,
    }
}

/// How many patches of the collection take part in compositing.
pub open spec fn spec_visible_count(patches: Seq<AiPatch>) -> nat
    decreases patches.len(),
{
    if patches.len() == 0 {
        0
    } else {
        (if spec_patch_visible(patches[0]) { 1nat } else { 0nat })
            + spec_visible_count(patches.skip(1))
    }
}

/// Whether `p` takes part in compositing; exact per `spec_patch_visible`.
pub fn patch_is_visible(p: &AiPatch) -> (r: bool)
    ensures
        r == spec_patch_visible(*p),
{
    let vis = match &p.visible {
        Some(v) => *v,
        None => true,
    };
    if !vis {
        return false;
    }
    match &p.color {
        Some(c) => c.len() > 0,
        None => false,
    }
}

/// How many patches of the collection take part in compositing; exact
/// per `spec_visible_count`.
pub fn count_visible(patches: &Vec<AiPatch>) -> (r: usize)
    ensures
        r == spec_visible_count(patches@),
{
    let mut r: usize = 0;
    let mut i: usize = patches.len();
    assert(patches@.len() <= usize::MAX);
    proof {
        assert(patches@.skip(patches@.len() as int) =~= Seq::<AiPatch>::empty());
    }
    while i > 0
        invariant
            patches@.len() <= usize::MAX,
            i <= patches@.len(),
            r + i <= patches@.len(),
            r == spec_visible_count(patches@.skip(i as int)),
        decreases i,
    {
        proof {
            assert(patches@.skip(i - 1)[0] == patches@[i - 1]);
            assert(patches@.skip(i - 1).skip(1) =~= patches@.skip(i as int));
            lemma_visible_count_bound(patches@.skip(i - 1));
        }
        if patch_is_visible(&patches[i - 1]) {
            r += 1;
        }
        i -= 1;
    }
    proof {
        assert(patches@.skip(0) =~= patches@);
    }
    r
}


/// No more patches are visible than there are patches.
pub proof fn lemma_visible_count_bound(patches: Seq<AiPatch>)
    ensures
        spec_visible_count(patches) <= patches.len(),
    decreases patches.len(),
{
    if patches.len() > 0 {
        lemma_visible_count_bound(patches.skip(1));
    }
}

/// Build the mask definition handed to the outside rasterizer for one
/// patch: its `id` and `name` are required, its `invert` flag defaults
/// to false, and `visible` / `opacity` are fixed to true / 100. Fails
/// exactly when `id` or `name` is absent.
pub fn build_mask_definition(p: AiPatch) -> (r: Result<MaskDefinition, CompositeError>)
    ensures
        r is Ok <==> (p.id is Some && p.name is Some),
        r matches Err(e) ==> e == CompositeError::MissingPatchInfo,
        r matches Ok(d) ==> {
            &&& Some(d.id) == p.id
            &&& Some(d.name) == p.name
            &&& d.visible == true
            &&& d.opacity == 100
            &&& d.invert == (p.invert matches Some(true))
            &&& d.sub_masks == p.sub_masks
        },
{
    let id = match p.id {
        Some(v) => v,
        None => {
            return Err(CompositeError::MissingPatchInfo);
        },
    };
    let name = match p.name {
        Some(v) => v,
        None => {
            return Err(CompositeError::MissingPatchInfo);
        },
    };
    let invert = match p.invert {
        Some(v) => v,
        None => false,
    };
    Ok(MaskDefinition { id, name, visible: true, invert, opacity: 100, sub_masks: p.sub_masks })
}

/// The colour buffer a visible patch contributes to the blend, on a
/// canvas of `w` by `h`: its base64 payload decoded to image bytes,
/// those decoded to RGB pixels, and the pixels resampled with Lanczos3
/// whenever their dimensions differ from the canvas. On an empty canvas
/// the pixels are taken as they are, since no blend will read them.
pub open spec fn spec_patch_color(p: AiPatch, w: u32, h: u32) -> Result<Seq<u8>, CompositeError> {
    if p.id is None || p.name is None {
        Err(CompositeError::MissingPatchInfo)
    } else {
        match spec_base64_decoded(p.color->Some_0@) {
            None => Err(CompositeError::InvalidBase64),
            Some(bytes) => match spec_rgb_decoded(bytes) {
                None => Err(CompositeError::UndecodableColor),
                Some(t) => {
                    let (cw, ch, cdata) = t;
                    if cw == w && ch == h {
                        Ok(cdata)
                    } else if w == 0 || h == 0 {
                        Ok(cdata)
                    } else if cw == 0 || ch == 0 {
                        Err(CompositeError::EmptyColorImage)
                    } else {
                        Ok(spec_lanczos3(cw, ch, cdata, w, h))
                    }
                },
            },
        }
    }
}

/// The working buffer after the patches are composited in document
/// order: an invisible patch changes nothing; each visible patch in
/// turn consumes the next mask and blends its colour buffer over the
/// result so far; the first failing patch fails the whole call.
pub open spec fn spec_composite(
    buf: Seq<u8>,
    patches: Seq<AiPatch>,
    masks: Seq<Seq<u8>>,
    w: u32,
    h: u32,
) -> Result<Seq<u8>, CompositeError>
    decreases patches.len(),
{
    if patches.len() == 0 {
        Ok(buf)
    } else if !spec_patch_visible(patches[0]) {
        spec_composite(buf, patches.skip(1), masks, w, h)
    } else {
        match spec_patch_color(patches[0], w, h) {
            Err(e) => Err(e),
            Ok(color) => spec_composite(
                spec_blend_image(buf, color, masks[0]),
                patches.skip(1),
                masks.skip(1),
                w,
                h,
            ),
        }
    }
}

/// The mask bitmaps' pixel grids.
pub open spec fn spec_mask_views(masks: Seq<MaskBitmap>) -> Seq<Seq<u8>> {
    masks.map_values(|m: MaskBitmap| m.data@)
}

/// Composite the visible patches over `base` in document order and
/// return the blended RGBA buffer, exact per `spec_composite`. The
/// masks are the rasterized bitmaps of the visible patches, in the same
/// order, each sized to the base image.
pub fn composite_patches_on_image(
    base: &Rgba8Image,
    patches: &Vec<AiPatch>,
    masks: &Vec<MaskBitmap>,
) -> (r: Result<Rgba8Image, CompositeError>)
    requires
        base.wf(),
        masks@.len() == spec_visible_count(patches@),
        forall|k: int| 0 <= k < masks@.len() ==> (#[trigger] masks@[k]).wf()
            && masks@[k].width == base.width && masks@[k].height == base.height,
    ensures
        r is Ok <==> spec_composite(
            base.data@, patches@, spec_mask_views(masks@), base.width, base.height) is Ok,
        r matches Ok(img) ==> {
            &&& img.wf()
            &&& img.width == base.width && img.height == base.height
            &&& Ok::<Seq<u8>, CompositeError>(img.data@) == spec_composite(
                base.data@, patches@, spec_mask_views(masks@), base.width, base.height)
        },
        r matches Err(e) ==> Err::<Seq<u8>, CompositeError>(e) == spec_composite(
            base.data@, patches@, spec_mask_views(masks@), base.width, base.height),
{
    let w = base.width;
    let h = base.height;
    let ghost m_views: Seq<Seq<u8>> = spec_mask_views(masks@);
    let ghost goal: Result<Seq<u8>, CompositeError> =
        spec_composite(base.data@, patches@, m_views, w, h);
    let mut buf: Vec<u8> = base.data.clone();
    proof {
        assert(buf@ =~= base.data@);
        assert(patches@.skip(0) =~= patches@);
        assert(m_views.skip(0) =~= m_views);
    }
    let mut i: usize = 0;
    let mut k: usize = 0;
    assert(patches@.len() <= usize::MAX && masks@.len() <= usize::MAX) by {
        assert(patches@.len() == patches.len() && masks@.len() == masks.len());
    }
    while i < patches.len()
        invariant
            base.wf(),
            w == base.width && h == base.height,
            m_views == spec_mask_views(masks@),
            goal == spec_composite(base.data@, patches@, m_views, w, h),
            masks@.len() == spec_visible_count(patches@),
            masks@.len() <= usize::MAX,
            patches@.len() <= usize::MAX,
            forall|k2: int| 0 <= k2 < masks@.len() ==> (#[trigger] masks@[k2]).wf()
                && masks@[k2].width == w && masks@[k2].height == h,
            i <= patches@.len(),
            k <= masks@.len(),
            buf@.len() == w * h * 4,
            m_views.skip(k as int).len() == spec_visible_count(patches@.skip(i as int)),
            goal == spec_composite(buf@, patches@.skip(i as int), m_views.skip(k as int), w, h),
        decreases patches@.len() - i,
    {
        proof {
            assert(patches@.skip(i as int)[0] == patches@[i as int]);
            assert(patches@.skip(i as int).skip(1) =~= patches@.skip(i + 1));
            lemma_visible_count_bound(patches@.skip(i + 1));
        }
        let p = &patches[i];
        if patch_is_visible(p) {
            proof {
                assert(patches@.skip(i as int).len() > 0);
                assert(spec_visible_count(patches@.skip(i as int))
                    == 1 + spec_visible_count(patches@.skip(i + 1)));
                assert(m_views.skip(k as int).len() >= 1);
                assert(k < masks@.len());
                assert(m_views.skip(k as int)[0] == m_views[k as int]);
                assert(m_views.skip(k as int).skip(1) =~= m_views.skip(k + 1));
                assert(m_views[k as int] == masks@[k as int].data@);
            }
            if p.id.is_none() || p.name.is_none() {
                return Err(CompositeError::MissingPatchInfo);
            }
            let color_text = match &p.color {
                Some(c) => c,
                None => unreached(),
            };
            let bytes = match base64_decode(color_text) {
                Some(b) => b,
                None => {
                    return Err(CompositeError::InvalidBase64);
                },
            };
            let decoded = match decode_rgb(&bytes) {
                Some(t) => t,
                None => {
                    return Err(CompositeError::UndecodableColor);
                },
            };
            let (cw, ch, cdata) = decoded;
            let ghost chosen: Seq<u8> = spec_patch_color(patches@[i as int], w, h)->Ok_0;
            let mask = &masks[k];
            if cw == w && ch == h {
                let color = Rgb8Image { width: w, height: h, data: cdata };
                blend_into(&mut buf, w, h, &color, mask);
            } else if w == 0 || h == 0 {
                proof {
                    assert(buf@.len() == 0);
                    assert(spec_blend_image(buf@, chosen, m_views[k as int]) =~= buf@);
                }
            } else if cw == 0 || ch == 0 {
                return Err(CompositeError::EmptyColorImage);
            } else {
                let resized = resize_rgb_lanczos3(cw, ch, cdata, w, h);
                let color = Rgb8Image { width: w, height: h, data: resized };
                blend_into(&mut buf, w, h, &color, mask);
            }
            k += 1;
        }
        i += 1;
    }
    proof {
        assert(patches@.skip(patches@.len() as int) =~= Seq::<AiPatch>::empty());
    }
    Ok(Rgba8Image { width: w, height: h, data: buf })
}

/// A collection with no visible patch composites to the base buffer
/// unchanged; in particular an empty patch collection does.
pub proof fn lemma_composite_no_visible(
    buf: Seq<u8>,
    patches: Seq<AiPatch>,
    masks: Seq<Seq<u8>>,
    w: u32,
    h: u32,
)
    requires
        forall|i: int| 0 <= i < patches.len() ==> !spec_patch_visible(#[trigger] patches[i]),
    ensures
        spec_composite(buf, patches, masks, w, h) == Ok::<Seq<u8>, CompositeError>(buf),
    decreases patches.len(),
{
    if patches.len() > 0 {
        assert(forall|i: int| 0 <= i < patches.skip(1).len() ==>
            !spec_patch_visible(#[trigger] patches.skip(1)[i]));
        lemma_composite_no_visible(buf, patches.skip(1), masks, w, h);
    }
}

/// A patch whose visibility test fails never affects the output:
/// inserting it anywhere in the collection leaves the composite
/// unchanged, whatever its mask or colour content.
pub proof fn lemma_invisible_patch_irrelevant(
    buf: Seq<u8>,
    patches: Seq<AiPatch>,
    masks: Seq<Seq<u8>>,
    w: u32,
    h: u32,
    i: int,
    p: AiPatch,
)
    requires
        0 <= i <= patches.len(),
        !spec_patch_visible(p),
    ensures
        spec_composite(buf, patches.insert(i, p), masks, w, h)
            == spec_composite(buf, patches, masks, w, h),
    decreases i,
{
    let with = patches.insert(i, p);
    if i == 0 {
        assert(with[0] == p);
        assert(with.skip(1) =~= patches);
    } else {
        assert(with[0] == patches[0]);
        assert(with.skip(1) =~= patches.skip(1).insert(i - 1, p));
        if patches.len() == 0 {
        } else if !spec_patch_visible(patches[0]) {
            lemma_invisible_patch_irrelevant(buf, patches.skip(1), masks, w, h, i - 1, p);
        } else {
            match spec_patch_color(patches[0], w, h) {
                Err(e) => {},
                Ok(color) => {
                    lemma_invisible_patch_irrelevant(
                        spec_blend_image(buf, color, masks[0]),
                        patches.skip(1),
                        masks.skip(1),
                        w,
                        h,
                        i - 1,
                        p,
                    );
                },
            }
        }
    }
}

/// Every mask uniformly zero leaves the buffer bit-identical whenever
/// compositing succeeds: a zero blend weight everywhere blends nothing.
pub proof fn lemma_zero_masks_identity(
    buf: Seq<u8>,
    patches: Seq<AiPatch>,
    masks: Seq<Seq<u8>>,
    w: u32,
    h: u32,
)
    requires
        buf.len() == w * h * 4,
        spec_visible_count(patches) <= masks.len(),
        forall|k: int| 0 <= k < masks.len() ==> (#[trigger] masks[k]).len() == w * h,
        forall|k: int, q: int| 0 <= k < masks.len() && 0 <= q < w * h ==>
            #[trigger] masks[k][q] == 0,
    ensures
        spec_composite(buf, patches, masks, w, h) matches Ok(out) ==> out == buf,
    decreases patches.len(),
{
    if patches.len() == 0 {
    } else if !spec_patch_visible(patches[0]) {
        lemma_zero_masks_identity(buf, patches.skip(1), masks, w, h);
    } else {
        match spec_patch_color(patches[0], w, h) {
            Err(e) => {},
            Ok(color) => {
                assert(spec_visible_count(patches) >= 1);
                lemma_blend_zero_mask(buf, color, masks[0]);
                assert(spec_blend_image(buf, color, masks[0]) == buf);
                assert(forall|k: int| 0 <= k < masks.skip(1).len() ==>
                    #[trigger] masks.skip(1)[k] == masks[k + 1]);
                lemma_zero_masks_identity(buf, patches.skip(1), masks.skip(1), w, h);
            },
        }
    }
}

/// One visible patch under a uniformly-255 mask paints its colour
/// buffer through completely: every colour channel of the output equals
/// the patch's colour buffer and every alpha byte is the base's.
pub proof fn lemma_single_full_mask(
    buf: Seq<u8>,
    p: AiPatch,
    mask: Seq<u8>,
    w: u32,
    h: u32,
    color: Seq<u8>,
)
    requires
        spec_patch_visible(p),
        spec_patch_color(p, w, h) == Ok::<Seq<u8>, CompositeError>(color),
        color.len() == w * h * 3,
        buf.len() == w * h * 4,
        mask.len() == w * h,
        forall|q: int| 0 <= q < mask.len() ==> mask[q] == 255,
    ensures
        spec_composite(buf, seq![p], seq![mask], w, h) matches Ok(out) ==> {
            &&& forall|pix: int, c: int| 0 <= pix < w * h && 0 <= c < 3 ==>
                #[trigger] out[pix * 4 + c] == color[pix * 3 + c]
            &&& forall|pix: int| 0 <= pix < w * h ==>
                #[trigger] out[pix * 4 + 3] == buf[pix * 4 + 3]
        },
{
    let s = seq![p];
    assert(s[0] == p);
    assert(s.skip(1) =~= Seq::<AiPatch>::empty());
    assert(seq![mask][0] == mask);
    lemma_blend_full_mask(buf, color, mask, w as int, h as int);
    assert(spec_patch_visible(s[0]));
    assert(spec_patch_color(s[0], w, h) == Ok::<Seq<u8>, CompositeError>(color));
    let blended = spec_blend_image(buf, color, mask);
    assert(spec_composite(blended, s.skip(1), seq![mask].skip(1), w, h)
        == Ok::<Seq<u8>, CompositeError>(blended));
    assert(spec_composite(buf, s, seq![mask], w, h)
        == Ok::<Seq<u8>, CompositeError>(blended));
}

} // verus!

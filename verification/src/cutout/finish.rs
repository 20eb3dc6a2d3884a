//! From the filled mask to the result: what is too small goes, what was marked
//! stays, and the mask becomes the alpha of the image.
use vstd::prelude::*;

use crate::cutout::background::BackgroundModel;
use crate::cutout::constraints::{disc, disc_pixels, Constraints};
use crate::cutout::despill::{despill, despilled};
use crate::cutout::feather::{feather, feathered};
use crate::cutout::floodfill::{foreground_mask, protects, stays, FloodOptions, FG_SEED_RADIUS};
use crate::cutout::mask::{Mask, MaskStats};
use crate::cutout::morphology::{remove_specks, speck_area, speck_radius, speck_reach, without_specks};
use crate::cutout::separability::{boundary_separability, Boundary};
use crate::geometry::{box_of_any, rect_on, Rect};
use crate::raster::RgbaImage;
use crate::tally::{lemma_ones, lists, ones};

verus! {

/// How a cutout is made. Distances and thresholds are keys: the bits of a number
/// that is not negative, which keep its order.
pub struct CutoutOptions {
    /// How far a colour may be from the background and still be filled.
    pub tolerance: u64,
    /// How many pixels along the border are taken for background.
    pub border: u32,
    /// Outside this box everything is background.
    pub bbox: Option<Rect>,
    /// Places that are foreground for certain.
    pub fg_seeds: Vec<(u32, u32)>,
    /// Marks for each pixel.
    pub constraints: Option<Constraints>,
    /// The radius of specks that go, at a long edge of 1000 pixels.
    pub cleanup: u32,
    pub feather: u32,
    pub despill: bool,
    /// The strength of edges that the fill does not cross; chosen by the texture
    /// of the background if absent, off if 0.
    pub edge_threshold: Option<u64>,
    /// How much the colour may change from pixel to pixel where the background
    /// spreads. It is carried along; the fill goes by `tolerance` and the edges, and
    /// does not read it.
    pub step_tolerance: u64,
    /// How much darker than the background a shadow may be. It is carried along; the
    /// fill goes by `tolerance` and the edges, and does not read it.
    pub shadow_tolerance: u64,
    /// Gaps of up to twice this many pixels are closed: what the fill has reached
    /// through them is foreground, and no refinement opens them again. 0 is off.
    pub seal: u32,
    /// Whether the boundary is refined by colour.
    pub refine: bool,
    pub background_model: BackgroundModel,
}

/// The key of the default tolerance, 12.
pub const DEFAULT_TOLERANCE: u64 = 0x4028_0000_0000_0000;

/// The key of the default change from pixel to pixel, 2.2.
pub const DEFAULT_STEP_TOLERANCE: u64 = 0x4001_9999_9999_999a;

/// The key of the default depth of a shadow, 35.
pub const DEFAULT_SHADOW_TOLERANCE: u64 = 0x4041_8000_0000_0000;

impl Default for CutoutOptions {
    fn default() -> (r: Self)
        ensures
            r.tolerance == DEFAULT_TOLERANCE,
            r.border == 2,
            r.bbox is None,
            r.fg_seeds@.len() == 0,
            r.constraints is None,
            r.cleanup == 2,
            r.feather == 1,
            r.despill,
            r.edge_threshold is None,
            r.step_tolerance == DEFAULT_STEP_TOLERANCE,
            r.shadow_tolerance == DEFAULT_SHADOW_TOLERANCE,
            r.seal == 1,
            r.refine,
            r.background_model == BackgroundModel::Auto,
    {
        CutoutOptions {
            tolerance: DEFAULT_TOLERANCE,
            border: 2,
            bbox: None,
            fg_seeds: Vec::new(),
            constraints: None,
            cleanup: 2,
            feather: 1,
            despill: true,
            edge_threshold: None,
            step_tolerance: DEFAULT_STEP_TOLERANCE,
            shadow_tolerance: DEFAULT_SHADOW_TOLERANCE,
            seal: 1,
            refine: true,
            background_model: BackgroundModel::Auto,
        }
    }
}

impl CutoutOptions {
    pub open spec fn wf(&self) -> bool {
        self.constraints matches Some(c) ==> c.wf()
    }

    /// The marks, as they are handed on.
    pub open spec fn marks(&self) -> Option<&Constraints> {
        match self.constraints {
            Some(c) => Some(&c),
            None => None,
        }
    }

    /// Place `i` of a mask of the given size is foreground whatever its colour:
    /// marked, or in the disc around a seed. Marks for another size say nothing.
    pub open spec fn forced(&self, w: u32, h: u32, i: int) -> bool {
        ||| self.constraints matches Some(c) && c.w() == w && c.h() == h && c.fg()[i]
        ||| protects(w, h, self.fg_seeds@, i)
    }
}

/// Makes what is forced opaque again. The filter for specks does not know of it.
#[verifier::rlimit(40)]
pub fn restore_forced_foreground(mask: &mut Mask, opts: &CutoutOptions)
    requires
        old(mask).wf(),
        opts.wf(),
    ensures
        final(mask).wf(),
        final(mask).w() == old(mask).w(),
        final(mask).h() == old(mask).h(),
        final(mask)@ == Seq::new(
            old(mask)@.len(),
            |i: int|
                if opts.forced(old(mask).w(), old(mask).h(), i) {
                    255u8
                } else {
                    old(mask)@[i]
                },
        ),
{
    let w: u32 = mask.width();
    let h: u32 = mask.height();
    let ghost was = mask@;
    let mut data: Vec<u8> = crate::cutout::morphology::slice_copy(mask.as_slice());
    let n: usize = data.len();
    let seeds: &[(u32, u32)] = opts.fg_seeds.as_slice();
    if let Some(c) = &opts.constraints {
        if c.width() == w && c.height() == h {
            let mut i: usize = 0;
            while i < n
                invariant
                    c.wf(),
                    c.w() == w,
                    c.h() == h,
                    n == was.len() == data@.len() == w * h,
                    i <= n,
                    forall|k: int| 0 <= k < i ==> #[trigger] data@[k] == if c.fg()[k] { 255u8 } else { was[k] },
                    forall|k: int| i <= k < n ==> #[trigger] data@[k] == was[k],
                decreases n - i,
            {
                if c.has_fg(i) {
                    data.set(i, 255);
                }
                i += 1;
            }
        }
    }
    let ghost marked = data@;
    let mut s: usize = 0;
    while s < seeds.len()
        invariant
            seeds@ == opts.fg_seeds@,
            n == was.len() == data@.len() == marked.len() == w * h,
            s <= seeds@.len(),
            forall|i: int|
                0 <= i < n ==> #[trigger] data@[i] == if protects(w, h, seeds@.take(s as int), i) {
                    255u8
                } else {
                    marked[i]
                },
        decreases seeds@.len() - s,
    {
        let (x, y) = seeds[s];
        let ghost area = disc(w, h, x, y, FG_SEED_RADIUS);
        let ghost before = data@;
        let places: Vec<usize> = disc_pixels(w, h, x, y, FG_SEED_RADIUS);
        proof {
            lemma_ones(area);
            assert(places@.map_values(|v: usize| v as int).len() == places@.len());
        }
        let mut k: usize = 0;
        while k < places.len()
            invariant
                n == data@.len() == before.len() == area.len(),
                lists(places@, area),
                places@.len() == ones(area).len(),
                forall|j: int| 0 <= j < ones(area).len() ==> 0 <= #[trigger] ones(area)[j] < area.len(),
                k <= places@.len(),
                forall|i: int|
                    0 <= i < n ==> #[trigger] data@[i] == if (exists|j: int| 0 <= j < k && ones(area)[j] == i) {
                        255u8
                    } else {
                        before[i]
                    },
            decreases places@.len() - k,
        {
            let i: usize = places[k];
            assert(places@.map_values(|v: usize| v as int)[k as int] == ones(area)[k as int]);
            let ghost had = data@;
            data.set(i, 255);
            proof {
                assert forall|a: int| 0 <= a < n implies #[trigger] data@[a] == if (exists|j: int|
                    0 <= j < k + 1 && ones(area)[j] == a) {
                    255u8
                } else {
                    before[a]
                } by {
                    assert(had[a] == if (exists|j: int| 0 <= j < k && ones(area)[j] == a) {
                        255u8
                    } else {
                        before[a]
                    });
                    if a == i {
                        assert(ones(area)[k as int] == a);
                    }
                }
            }
            k += 1;
        }
        proof {
            let shorter = seeds@.take(s as int);
            let longer = seeds@.take(s + 1);
            assert forall|i: int| 0 <= i < n implies #[trigger] data@[i] == if protects(w, h, longer, i) {
                255u8
            } else {
                marked[i]
            } by {
                lemma_ones(area);
                assert(area[i] <==> exists|j: int| 0 <= j < k && ones(area)[j] == i) by {
                    if area[i] {
                        assert(ones(area).contains(i));
                    }
                }
                assert(before[i] == if protects(w, h, shorter, i) { 255u8 } else { marked[i] });
                if protects(w, h, shorter, i) {
                    let a = choose|a: int|
                        0 <= a < shorter.len() && disc(w, h, (#[trigger] shorter[a]).0, shorter[a].1, FG_SEED_RADIUS)[i];
                    assert(longer[a] == shorter[a]);
                }
                if protects(w, h, longer, i) {
                    let a = choose|a: int|
                        0 <= a < longer.len() && disc(w, h, (#[trigger] longer[a]).0, longer[a].1, FG_SEED_RADIUS)[i];
                    if a < s {
                        assert(shorter[a] == longer[a]);
                    } else {
                        assert(longer[a] == (x, y));
                    }
                }
                if area[i] {
                    assert(longer[s as int] == (x, y));
                }
            }
        }
        s += 1;
    }
    proof {
        assert(seeds@.take(s as int) =~= seeds@);
        assert(data@ =~= Seq::new(was.len(), |i: int| if opts.forced(w, h, i) { 255u8 } else { was[i] }));
    }
    *mask = Mask::from_values(w, h, data);
}

/// What stays of a mask: what is forced, and of the rest what is not a speck.
pub open spec fn cleaned_value(m: Seq<u8>, w: u32, h: u32, opts: &CutoutOptions, i: int) -> u8 {
    if opts.forced(w, h, i) {
        255
    } else if opts.cleanup == 0 {
        m[i]
    } else {
        without_specks(m, w as int, speck_area(opts.cleanup, w, h), i)
    }
}

/// Clears specks and makes what is forced opaque again.
pub fn clean(mask: &Mask, opts: &CutoutOptions) -> (out: Mask)
    requires
        mask.wf(),
        opts.wf(),
    ensures
        out.wf(),
        out.w() == mask.w(),
        out.h() == mask.h(),
        forall|i: int|
            0 <= i < mask@.len() ==> #[trigger] out@[i] == cleaned_value(mask@, mask.w(), mask.h(), opts, i),
{
    let mut out: Mask = remove_specks(mask, opts.cleanup);
    restore_forced_foreground(&mut out, opts);
    out
}

/// The two-valued mask from which the boundary is worked out: the fill of the
/// background, without specks.
pub fn first_mask(image: &RgbaImage, delta: &[u64], gradient: &[u64], flood: &FloodOptions<'_>, opts: &CutoutOptions) -> (out:
    Mask)
    requires
        image.wf(),
        opts.wf(),
        flood.wf(),
        delta@.len() == image@.len(),
        flood.edge_threshold > 0 ==> gradient@.len() == image@.len(),
        flood.bbox matches Some(r) ==> rect_on(r, image.w() as int, image.h() as int) || image@.len() == 0,
    ensures
        out.wf(),
        out.w() == image.w(),
        out.h() == image.h(),
        exists|filled: Seq<u8>| #[trigger]
            is_filled(image, delta@, gradient@, flood, filled) && forall|i: int|
                0 <= i < image@.len() ==> #[trigger] out@[i] == cleaned_value(
                    filled,
                    image.w(),
                    image.h(),
                    opts,
                    i,
                ),
{
    let mask: Mask = foreground_mask(image, delta, gradient, flood);
    assert(is_filled(image, delta@, gradient@, flood, mask@));
    clean(&mask, opts)
}

/// The mask of the fill: 255 where the product stays, 0 elsewhere.
pub open spec fn is_filled(image: &RgbaImage, delta: Seq<u64>, gradient: Seq<u64>, flood: &FloodOptions<'_>, m: Seq<u8>) -> bool {
    &&& m.len() == image@.len()
    &&& forall|i: int|
        0 <= i < m.len() ==> #[trigger] m[i] == if stays(image, delta, gradient, flood, i) { 255u8 } else { 0u8 }
}

/// The boundary without refinement: the mask feathered, and the background taken out
/// of the colours by the feathered mask, if that is asked for.
pub open spec fn is_plain(
    image: RgbaImage,
    mask: &Mask,
    background: [u8; 3],
    opts: &CutoutOptions,
    r: (RgbaImage, Mask),
) -> bool {
    &&& r.1.wf()
    &&& r.1.w() == mask.w()
    &&& r.1.h() == mask.h()
    &&& r.1@ == if opts.feather == 0 {
        mask@
    } else {
        feathered(mask@, mask.w() as int, mask.h() as int, opts.feather as int)
    }
    &&& r.0.wf()
    &&& r.0.w() == image.w()
    &&& r.0.h() == image.h()
    &&& !opts.despill ==> r.0 == image
    &&& opts.despill ==> forall|x: int, y: int|
        image.inside(x, y) ==> despilled(image.px(x, y), background, r.1.px(x, y), #[trigger] r.0.px(x, y))
}

/// The boundary without refinement: feathered, and with the background taken out
/// of its colours if that is asked for.
pub fn plain_boundary(image: RgbaImage, mask: &Mask, background: [u8; 3], opts: &CutoutOptions) -> (r: (RgbaImage, Mask))
    requires
        image.wf(),
        mask.wf(),
        image.w() == mask.w(),
        image.h() == mask.h(),
    ensures
        is_plain(image, mask, background, opts, r),
{
    let soft: Mask = feather(mask, opts.feather);
    let mut out: RgbaImage = image;
    if opts.despill {
        despill(&mut out, &soft, background);
    }
    (out, soft)
}

/// Writes a mask into the alpha of an image. Where the image was more transparent
/// it stays so.
pub fn apply_alpha(image: &mut RgbaImage, mask: &Mask)
    requires
        old(image).wf(),
        mask.wf(),
        old(image).w() == mask.w(),
        old(image).h() == mask.h(),
    ensures
        final(image).wf(),
        final(image).w() == old(image).w(),
        final(image).h() == old(image).h(),
        forall|i: int|
            0 <= i < mask@.len() ==> with_lower_alpha(old(image)@[i], mask@[i], #[trigger] final(image)@[i]),
{
    let w: u32 = mask.width();
    let ghost (wi, hi) = (mask.w() as int, mask.h() as int);
    let ghost was = image@;
    let n: usize = mask.as_slice().len();
    let mut i: usize = 0;
    while i < n
        invariant
            image.wf(),
            mask.wf(),
            wi == w == mask.w() == image.w(),
            hi == mask.h() == image.h(),
            n == mask@.len() == was.len() == image@.len() == wi * hi,
            i <= n,
            forall|k: int| 0 <= k < i ==> with_lower_alpha(was[k], mask@[k], #[trigger] image@[k]),
            forall|k: int| i <= k < n ==> #[trigger] image@[k] == was[k],
        decreases n - i,
    {
        proof {
            crate::cutout::cells::lemma_small_place(wi, hi, i as int);
        }
        let x: u32 = (i % (w as usize)) as u32;
        let y: u32 = (i / (w as usize)) as u32;
        let p: [u8; 4] = image.get_pixel(x, y);
        let a: u8 = mask.get(x, y);
        let q: [u8; 4] = [p[0], p[1], p[2], if p[3] < a { p[3] } else { a }];
        assert(p == was[i as int]);
        image.put_pixel(x, y, q);
        assert(with_lower_alpha(was[i as int], a, q));
        i += 1;
    }
}

/// A pixel with the lower of its own alpha and that of the mask.
pub open spec fn with_lower_alpha(p: [u8; 4], a: u8, after: [u8; 4]) -> bool {
    &&& after[0] == p[0]
    &&& after[1] == p[1]
    &&& after[2] == p[2]
    &&& after[3] == if p[3] < a { p[3] } else { a }
}

/// How far inward the separability is measured: past the rim that specks,
/// feather and edges may leave.
pub open spec fn inset_of(opts: &CutoutOptions, width: u32, height: u32) -> int {
    let inset = speck_reach(opts.cleanup, width, height) + opts.feather + 4;
    if inset < u32::MAX {
        inset
    } else {
        u32::MAX as int
    }
}

pub fn separability_inset(opts: &CutoutOptions, width: u32, height: u32) -> (r: u32)
    ensures
        r == inset_of(opts, width, height),
{
    let inset: u64 = speck_radius(opts.cleanup, width, height) as u64 + opts.feather as u64 + 4;
    if inset < 0xffff_ffff {
        inset as u32
    } else {
        0xffff_ffff
    }
}

/// A finished cutout.
pub struct Finished {
    /// The image with its alpha.
    pub image: RgbaImage,
    pub mask: Mask,
    pub stats: MaskStats,
    /// The median distance between product and background along the boundary, as
    /// a key.
    pub separability: Option<u64>,
}

/// A finished cutout: the mask without specks, the image under it, what they hold, and
/// how far product and background are apart along the boundary.
pub open spec fn is_complete(image: RgbaImage, mask: &Mask, delta: &[u64], opts: &CutoutOptions, r: &Finished) -> bool {
    &&& r.mask.wf()
    &&& r.mask.w() == mask.w()
    &&& r.mask.h() == mask.h()
    &&& forall|i: int|
        0 <= i < mask@.len() ==> #[trigger] r.mask@[i] == cleaned_value(mask@, mask.w(), mask.h(), opts, i)
    &&& r.image.wf()
    &&& r.image.w() == mask.w()
    &&& r.image.h() == mask.h()
    &&& forall|i: int|
        0 <= i < mask@.len() ==> with_lower_alpha(image@[i], r.mask@[i], #[trigger] r.image@[i])
    &&& r.stats.total == mask.w() * mask.h()
    &&& r.mask.foreground().finite()
    &&& r.stats.foreground == r.mask.foreground().len()
    &&& box_of_any(r.mask.foreground(), r.stats.bbox)
    &&& r.stats.touches_edge <==> exists|p: (int, int)|
        #[trigger] r.mask.foreground().contains(p) && r.mask.on_edge(p.0, p.1)
    &&& (Boundary {
        mask: &r.mask,
        delta,
        bbox: opts.bbox,
        constraints: opts.marks(),
        depth: inset_of(opts, mask.w(), mask.h()) as u32,
    }).separates(r.separability)
}

/// Finishes a cutout whose boundary has been worked out. Specks are cleared once
/// more: only now, with the rim transparent again, can they be measured rightly.
///
/// `delta` tells how far each pixel of the original image is from the background.
pub fn complete(image: RgbaImage, mask: &Mask, delta: &[u64], opts: &CutoutOptions) -> (r: Finished)
    requires
        image.wf(),
        mask.wf(),
        opts.wf(),
        image.w() == mask.w(),
        image.h() == mask.h(),
        delta@.len() == mask@.len(),
    ensures
        is_complete(image, mask, delta, opts, &r),
{
    let out: Mask = clean(mask, opts);
    let mut shown: RgbaImage = image;
    apply_alpha(&mut shown, &out);
    let stats: MaskStats = out.stats();
    let inset: u32 = separability_inset(opts, out.width(), out.height());
    let separability: Option<u64> = boundary_separability(
        (out.width(), out.height()),
        &out,
        delta,
        inset,
        opts.bbox,
        match &opts.constraints {
            Some(c) => Some(c),
            None => None,
        },
    );
    Finished { image: shown, mask: out, stats, separability }
}

} // verus!

//! The foreground mask by a connected fill from the border.
//!
//! A pixel does not become transparent for being close to the background colour
//! but for being reachable from the border through such pixels. White inside a
//! product on white cannot be reached and stays.
//!
//! Colour differences and gradients come as keys: unsigned integers that order
//! as the measures do. The bits of a floating-point number that is not negative
//! are such a key.
use vstd::prelude::*;

use crate::cutout::connect::{flood, from_seed, joined, lemma_joined_within, search_ok, searched, touching};
use crate::cutout::constraints::{disc, disc_pixels, Constraints};
use crate::cutout::mask::Mask;
use crate::cutout::morphology::BitPlane;
use crate::cutout::sealing::{opens, seal_narrow_gaps};
use crate::geometry::{at, in_rect, lemma_at_bound, lemma_at_join, lemma_at_split, on_plane, place, rect_on, Rect};
use crate::raster::RgbaImage;
use crate::tally::{lemma_ones, lists, ones};

verus! {

/// The radius of the disc that a foreground seed protects.
pub const FG_SEED_RADIUS: u32 = 5;

/// What the fill goes by.
#[derive(Debug)]
pub struct FloodOptions<'a> {
    /// Pixels whose colour differs from the background by at most this key are
    /// taken for background.
    pub tolerance: u64,
    /// Outside this rectangle everything is background.
    pub bbox: Option<Rect>,
    /// Places that are foreground for certain.
    pub fg_seeds: Vec<(u32, u32)>,
    /// The fill does not enter pixels with a gradient above this key. 0 is off.
    pub edge_threshold: u64,
    /// Marks for each pixel; those for another size say nothing. What is marked as
    /// foreground stays, and what is marked as background goes and lets the fill
    /// start from it.
    pub constraints: Option<&'a Constraints>,
    /// Gaps of up to twice this many pixels are closed again, and what the fill has
    /// reached through them goes back to the foreground. 0 is off.
    pub seal: u32,
}

impl<'a> FloodOptions<'a> {
    pub open spec fn wf(&self) -> bool {
        self.constraints matches Some(c) ==> c.wf()
    }

    /// Place `i` of an image of the given size is foreground whatever its colour:
    /// in the disc around a seed, or marked.
    pub open spec fn keeps(&self, w: u32, h: u32, i: int) -> bool {
        ||| protects(w, h, self.fg_seeds@, i)
        ||| self.constraints matches Some(c) && c.w() == w && c.h() == h && c.fg()[i]
    }

    /// Place `i` is marked as background.
    pub open spec fn drops(&self, w: u32, h: u32, i: int) -> bool {
        self.constraints matches Some(c) && c.w() == w && c.h() == h && c.bg()[i]
    }

    /// All places that are marked as background.
    pub open spec fn dropped(&self, w: u32, h: u32, n: nat) -> Seq<bool> {
        Seq::new(n, |i: int| self.drops(w, h, i))
    }
}

/// `(x, y)` lies on the outline of the rectangle.
pub open spec fn on_outline(r: Rect, x: int, y: int) -> bool {
    in_rect(r, x, y) && (x == r.0 || x == r.2 || y == r.1 || y == r.3)
}

/// Where the fill starts: the outline of the box or else of the image.
pub open spec fn start_rect(w: u32, h: u32, bbox: Option<Rect>) -> Rect {
    match bbox {
        Some(r) => r,
        None => (0, 0, (w - 1) as u32, (h - 1) as u32),
    }
}

/// The fill may start at place `s`: on the outline, or where it was told to.
pub open spec fn starts(w: int, r: Rect, told: Seq<bool>, s: int) -> bool {
    on_outline(r, s % w, s / w) || told[s]
}

/// `i` can be reached over candidates from a candidate where the fill starts.
/// Steps go to the four neighbours: diagonal ones would leak through slanted
/// outlines.
pub open spec fn reached(w: int, candidate: Seq<bool>, r: Rect, told: Seq<bool>, i: int) -> bool {
    exists|s: int|
        0 <= s < candidate.len() && starts(w, r, told, s) && #[trigger] joined(w, false, candidate, s, i)
}

/// The protected pixels: the discs around the seeds.
pub open spec fn protects(w: u32, h: u32, seeds: Seq<(u32, u32)>, i: int) -> bool {
    exists|k: int|
        0 <= k < seeds.len() && disc(w, h, (#[trigger] seeds[k]).0, seeds[k].1, FG_SEED_RADIUS)[i]
}

/// A pixel lets the fill in: it is marked as background, transparent, or close
/// enough to the background.
pub open spec fn lets_in(
    alpha: u8,
    delta: u64,
    gradient: u64,
    opts: &FloodOptions<'_>,
    protected: bool,
    marked: bool,
) -> bool {
    !protected && (marked || alpha == 0 || ((opts.edge_threshold == 0 || gradient <= opts.edge_threshold) && delta
        <= opts.tolerance))
}

/// The candidates of a whole image.
pub open spec fn candidates_of(image: &RgbaImage, delta: Seq<u64>, gradient: Seq<u64>, opts: &FloodOptions<'_>) -> Seq<bool> {
    Seq::new(
        image@.len(),
        |i: int|
            lets_in(
                image@[i][3],
                delta[i],
                gradient[i],
                opts,
                opts.keeps(image.w(), image.h(), i),
                opts.drops(image.w(), image.h(), i),
            ),
    )
}

/// What the fill reaches.
pub open spec fn fills(image: &RgbaImage, delta: Seq<u64>, gradient: Seq<u64>, opts: &FloodOptions<'_>, i: int) -> bool {
    reached(
        image.w() as int,
        candidates_of(image, delta, gradient, opts),
        start_rect(image.w(), image.h(), opts.bbox),
        opts.dropped(image.w(), image.h(), image@.len()),
        i,
    )
}

/// Place `i` lies outside the box.
pub open spec fn beyond(image: &RgbaImage, opts: &FloodOptions<'_>, i: int) -> bool {
    let w = image.w() as int;
    !in_rect(start_rect(image.w(), image.h(), opts.bbox), i % w, i / w)
}

/// The background before narrow gaps are closed.
pub open spec fn flooded(image: &RgbaImage, delta: Seq<u64>, gradient: Seq<u64>, opts: &FloodOptions<'_>) -> Seq<bool> {
    Seq::new(image@.len(), |i: int| fills(image, delta, gradient, opts, i) || beyond(image, opts, i))
}

/// Background that was not reached through a gap: where the fill starts, and all
/// that lies outside the box.
pub open spec fn sure_ground(image: &RgbaImage, delta: Seq<u64>, gradient: Seq<u64>, opts: &FloodOptions<'_>) -> Seq<bool> {
    Seq::new(
        image@.len(),
        |i: int|
            flooded(image, delta, gradient, opts)[i] && (beyond(image, opts, i) || starts(
                image.w() as int,
                start_rect(image.w(), image.h(), opts.bbox),
                opts.dropped(image.w(), image.h(), image@.len()),
                i,
            )),
    )
}

/// Place `i` is background for good: marked as such, or open for the seal.
pub open spec fn stays_open(image: &RgbaImage, delta: Seq<u64>, gradient: Seq<u64>, opts: &FloodOptions<'_>, i: int) -> bool {
    ||| opts.seal == 0
    ||| opts.drops(image.w(), image.h(), i)
    ||| opens(
        flooded(image, delta, gradient, opts),
        image.w() as int,
        image.h() as int,
        opts.seal as int,
        sure_ground(image, delta, gradient, opts),
        i,
    )
}

/// What stays foreground: the protected pixels, and inside the box everything
/// that the fill does not reach, or reaches only through a narrow gap.
pub open spec fn stays(image: &RgbaImage, delta: Seq<u64>, gradient: Seq<u64>, opts: &FloodOptions<'_>, i: int) -> bool {
    opts.keeps(image.w(), image.h(), i) || (!beyond(image, opts, i) && !(fills(image, delta, gradient, opts, i)
        && stays_open(image, delta, gradient, opts, i)))
}

/// Builds the foreground mask: 255 where the product stays, 0 elsewhere.
pub fn foreground_mask(image: &RgbaImage, delta: &[u64], gradient: &[u64], opts: &FloodOptions<'_>) -> (mask: Mask)
    requires
        image.wf(),
        opts.wf(),
        delta@.len() == image@.len(),
        opts.edge_threshold > 0 ==> gradient@.len() == image@.len(),
        opts.bbox matches Some(r) ==> rect_on(r, image.w() as int, image.h() as int) || image@.len() == 0,
    ensures
        mask.wf(),
        mask.w() == image.w(),
        mask.h() == image.h(),
        forall|i: int|
            0 <= i < image@.len() ==> #[trigger] mask@[i] == if stays(image, delta@, gradient@, opts, i) {
                255u8
            } else {
                0u8
            },
{
    let w: u32 = image.width();
    let h: u32 = image.height();
    if w == 0 || h == 0 {
        assert(w * h == 0) by (nonlinear_arith)
            requires
                w == 0 || h == 0,
        ;
        return Mask::new(w, h, 0);
    }
    assert(0 < w * h) by (nonlinear_arith)
        requires
            0 < w,
            0 < h,
    ;
    let n: usize = (w as usize) * (h as usize);
    let (protected, told): (Vec<bool>, Vec<bool>) = marked_pixels(w, h, opts);
    let candidate: Vec<bool> = background_candidates(image, delta, gradient, opts, &protected, &told);
    let filled: Vec<bool> = fill_from_border(w, h, &candidate, opts.bbox, &told);
    proof {
        assert forall|k: int| 0 <= k < n implies #[trigger] filled@[k] == fills(image, delta@, gradient@, opts, k) by {}
    }
    let open: Vec<bool> = still_open(image, delta, gradient, opts, &filled, &told);
    let mut foreground: Vec<bool> = Vec::with_capacity(n);
    let mut i: usize = 0;
    while i < n
        invariant
            image.wf(),
            w == image.w(),
            h == image.h(),
            0 < w,
            n == w * h == image@.len(),
            opts.bbox matches Some(r) ==> rect_on(r, w as int, h as int),
            protected@.len() == n,
            filled@.len() == n,
            open@.len() == n,
            forall|k: int| 0 <= k < n ==> #[trigger] protected@[k] == opts.keeps(w, h, k),
            forall|k: int| 0 <= k < n ==> #[trigger] filled@[k] == fills(image, delta@, gradient@, opts, k),
            forall|k: int| 0 <= k < n ==> #[trigger] open@[k] == stays_open(image, delta@, gradient@, opts, k),
            i <= n,
            foreground@.len() == i,
            forall|k: int| 0 <= k < i ==> #[trigger] foreground@[k] == stays(image, delta@, gradient@, opts, k),
        decreases n - i,
    {
        let out: bool = is_beyond(image, opts, i);
        foreground.push(protected[i] || !(out || (filled[i] && open[i])));
        i += 1;
    }
    let mask: Mask = Mask::from_bools(w, h, foreground.as_slice());
    mask
}

fn is_beyond(image: &RgbaImage, opts: &FloodOptions<'_>, i: usize) -> (out: bool)
    requires
        image.wf(),
        i < image@.len(),
    ensures
        out == beyond(image, opts, i as int),
{
    proof {
        crate::cutout::cells::lemma_small_place(image.w() as int, image.h() as int, i as int);
    }
    let w: usize = image.width() as usize;
    let (x, y): (usize, usize) = (i % w, i / w);
    match opts.bbox {
        Some(r) => x < r.0 as usize || x > r.2 as usize || y < r.1 as usize || y > r.3 as usize,
        None => false,
    }
}

fn is_start(image: &RgbaImage, opts: &FloodOptions<'_>, told: &Vec<bool>, i: usize) -> (r: bool)
    requires
        image.wf(),
        i < image@.len(),
        told@ == opts.dropped(image.w(), image.h(), image@.len()),
    ensures
        r == starts(image.w() as int, start_rect(image.w(), image.h(), opts.bbox), told@, i as int),
{
    proof {
        crate::cutout::cells::lemma_small_place(image.w() as int, image.h() as int, i as int);
    }
    let w: u32 = image.width();
    let h: u32 = image.height();
    let x: u32 = (i % (w as usize)) as u32;
    let y: u32 = (i / (w as usize)) as u32;
    let r: Rect = match opts.bbox {
        Some(r) => r,
        None => (0, 0, w - 1, h - 1),
    };
    let inside: bool = r.0 <= x && x <= r.2 && r.1 <= y && y <= r.3;
    told[i] || (inside && (x == r.0 || x == r.2 || y == r.1 || y == r.3))
}

/// Which places stay background when narrow gaps are closed, if they are.
fn still_open(
    image: &RgbaImage,
    delta: &[u64],
    gradient: &[u64],
    opts: &FloodOptions<'_>,
    filled: &Vec<bool>,
    told: &Vec<bool>,
) -> (r: Vec<bool>)
    requires
        image.wf(),
        0 < image.w(),
        0 < image.h(),
        filled@.len() == image@.len(),
        forall|k: int| 0 <= k < filled@.len() ==> #[trigger] filled@[k] == fills(image, delta@, gradient@, opts, k),
        told@ == opts.dropped(image.w(), image.h(), image@.len()),
    ensures
        r@.len() == image@.len(),
        forall|k: int| 0 <= k < r@.len() ==> #[trigger] r@[k] == stays_open(image, delta@, gradient@, opts, k),
{
    let n: usize = filled.len();
    if opts.seal == 0 {
        return vec![true; n];
    }
    let ghost (bg, st) = (flooded(image, delta@, gradient@, opts), sure_ground(image, delta@, gradient@, opts));
    let mut ground: BitPlane = BitPlane::new(n);
    let mut start: BitPlane = BitPlane::new(n);
    let mut i: usize = 0;
    while i < n
        invariant
            image.wf(),
            n == image@.len() == filled@.len(),
            forall|k: int| 0 <= k < filled@.len() ==> #[trigger] filled@[k] == fills(image, delta@, gradient@, opts, k),
            told@ == opts.dropped(image.w(), image.h(), image@.len()),
            bg == flooded(image, delta@, gradient@, opts),
            st == sure_ground(image, delta@, gradient@, opts),
            i <= n,
            ground.wf(),
            start.wf(),
            ground@.len() == start@.len() == n,
            forall|k: int| 0 <= k < i ==> #[trigger] ground@[k] == bg[k],
            forall|k: int| 0 <= k < i ==> #[trigger] start@[k] == st[k],
        decreases n - i,
    {
        let out: bool = is_beyond(image, opts, i);
        let here: bool = filled[i] || out;
        ground.set(i, here);
        start.set(i, here && (out || is_start(image, opts, told, i)));
        i += 1;
    }
    assert(ground@ =~= bg);
    assert(start@ =~= st);
    let open: BitPlane = seal_narrow_gaps(image.width() as usize, image.height() as usize, &ground, start, opts.seal);
    let mut r: Vec<bool> = Vec::with_capacity(n);
    let mut j: usize = 0;
    while j < n
        invariant
            n == image@.len() == told@.len() == open@.len(),
            told@ == opts.dropped(image.w(), image.h(), image@.len()),
            opts.seal > 0,
            bg == flooded(image, delta@, gradient@, opts),
            st == sure_ground(image, delta@, gradient@, opts),
            open.wf(),
            forall|k: int|
                0 <= k < open@.len() ==> #[trigger] open@[k] == opens(
                    bg,
                    image.w() as int,
                    image.h() as int,
                    opts.seal as int,
                    st,
                    k,
                ),
            j <= n,
            r@.len() == j,
            forall|k: int| 0 <= k < j ==> #[trigger] r@[k] == stays_open(image, delta@, gradient@, opts, k),
        decreases n - j,
    {
        r.push(told[j] || open.get(j));
        j += 1;
    }
    r
}

/// Marks the pixels that are close enough to the background. Transparent pixels
/// are background already; on an outline of the product the colour does not count.
fn background_candidates(
    image: &RgbaImage,
    delta: &[u64],
    gradient: &[u64],
    opts: &FloodOptions<'_>,
    protected: &Vec<bool>,
    told: &Vec<bool>,
) -> (r: Vec<bool>)
    requires
        image.wf(),
        delta@.len() == image@.len(),
        opts.edge_threshold > 0 ==> gradient@.len() == image@.len(),
        protected@.len() == image@.len(),
        forall|k: int| 0 <= k < image@.len() ==> #[trigger] protected@[k] == opts.keeps(image.w(), image.h(), k),
        told@ == opts.dropped(image.w(), image.h(), image@.len()),
    ensures
        r@ == candidates_of(image, delta@, gradient@, opts),
{
    let pixels: &[[u8; 4]] = image.pixels();
    let mut r: Vec<bool> = Vec::with_capacity(pixels.len());
    let mut i: usize = 0;
    while i < pixels.len()
        invariant
            pixels@ == image@,
            delta@.len() == image@.len(),
            opts.edge_threshold > 0 ==> gradient@.len() == image@.len(),
            protected@.len() == image@.len(),
            forall|k: int| 0 <= k < image@.len() ==> #[trigger] protected@[k] == opts.keeps(image.w(), image.h(), k),
            told@ == opts.dropped(image.w(), image.h(), image@.len()),
            i <= pixels@.len(),
            r@.len() == i,
            forall|k: int|
                0 <= k < i ==> #[trigger] r@[k] == candidates_of(image, delta@, gradient@, opts)[k],
        decreases pixels@.len() - i,
    {
        let p: [u8; 4] = pixels[i];
        let edge: bool = opts.edge_threshold > 0 && gradient[i] > opts.edge_threshold;
        r.push(!protected[i] && (told[i] || p[3] == 0 || (!edge && delta[i] <= opts.tolerance)));
        i += 1;
    }
    assert(r@ =~= candidates_of(image, delta@, gradient@, opts));
    r
}

/// The seeds of a fill while they are being planted.
spec fn planting(w: int, h: int, open: Seq<bool>, seen: Seq<bool>, seeds: Seq<usize>, r: Rect, told: Seq<bool>) -> bool {
    &&& open.len() == seen.len() == told.len() == w * h
    &&& seeds.no_duplicates()
    &&& forall|k: int|
        0 <= k < seeds.len() ==> (#[trigger] seeds[k]) < w * h && open[seeds[k] as int] && starts(
            w,
            r,
            told,
            seeds[k] as int,
        )
    &&& forall|i: int| 0 <= i < w * h ==> (#[trigger] seen[i] <==> seeds.contains(i as usize))
}

fn plant(
    w: u32,
    h: u32,
    open: &BitPlane,
    seen: &mut BitPlane,
    seeds: &mut Vec<usize>,
    x: u32,
    y: u32,
    r: Ghost<Rect>,
    told: Ghost<Seq<bool>>,
)
    requires
        w * h <= usize::MAX,
        open.wf(),
        old(seen).wf(),
        planting(w as int, h as int, open@, old(seen)@, old(seeds)@, r@, told@),
        on_plane(w as int, h as int, x as int, y as int),
        starts(w as int, r@, told@, at(w as int, x as int, y as int)),
    ensures
        final(seen).wf(),
        planting(w as int, h as int, open@, final(seen)@, final(seeds)@, r@, told@),
        forall|i: int| 0 <= i < w * h && #[trigger] old(seen)@[i] ==> final(seen)@[i],
        open@[at(w as int, x as int, y as int)] ==> final(seen)@[at(w as int, x as int, y as int)],
{
    let i: usize = place(w as usize, x as usize, y as usize, Ghost(h as int));
    proof {
        lemma_at_split(w as int, x as int, y as int);
    }
    if open.get(i) && !seen.get(i) {
        let ghost had = seeds@;
        seen.insert(i);
        seeds.push(i);
        proof {
            assert(!had.contains(i)) by {
                assert(!old(seen)@[i as int]);
            }
            assert forall|j: int| 0 <= j < w * h implies (#[trigger] seen@[j] <==> seeds@.contains(j as usize)) by {
                if j == i {
                    assert(seeds@[had.len() as int] == i);
                } else {
                    assert(seen@[j] == old(seen)@[j]);
                    if had.contains(j as usize) {
                        let k = choose|k: int| 0 <= k < had.len() && had[k] == j as usize;
                        assert(seeds@[k] == j as usize);
                    }
                    if seeds@.contains(j as usize) {
                        let k = choose|k: int| 0 <= k < seeds@.len() && seeds@[k] == j as usize;
                        assert(had[k] == j as usize);
                    }
                }
            }
        }
    }
}

/// Fills from the outline, and from where it is told to, over the four neighbours.
///
/// With a box the fill starts at its edge: outside it everything is background
/// already, and a patch of another colour between the border of the image and
/// the box must not keep the fill out.
pub fn fill_from_border(w: u32, h: u32, candidate: &Vec<bool>, bbox: Option<Rect>, told: &Vec<bool>) -> (filled:
    Vec<bool>)
    requires
        0 < w,
        0 < h,
        candidate@.len() == told@.len() == w * h <= usize::MAX,
        bbox matches Some(r) ==> rect_on(r, w as int, h as int),
    ensures
        filled@.len() == candidate@.len(),
        forall|i: int|
            0 <= i < candidate@.len() ==> #[trigger] filled@[i] == reached(
                w as int,
                candidate@,
                start_rect(w, h, bbox),
                told@,
                i,
            ),
{
    let ghost (wi, hi) = (w as int, h as int);
    let n: usize = candidate.len();
    let r: Rect = match bbox {
        Some(r) => r,
        None => (0, 0, w - 1, h - 1),
    };
    let mut open: BitPlane = BitPlane::new(n);
    let mut i: usize = 0;
    while i < n
        invariant
            n == candidate@.len(),
            i <= n,
            open.wf(),
            open@.len() == n,
            forall|k: int| 0 <= k < i ==> #[trigger] open@[k] == candidate@[k],
        decreases n - i,
    {
        open.set(i, candidate[i]);
        i += 1;
    }
    assert(open@ =~= candidate@);
    let mut seen: BitPlane = BitPlane::new(n);
    let mut seeds: Vec<usize> = Vec::new();
    let mut x: u32 = r.0;
    while x <= r.2
        invariant
            wi == w,
            hi == h,
            w * h <= usize::MAX,
            rect_on(r, wi, hi),
            open.wf(),
            seen.wf(),
            planting(wi, hi, open@, seen@, seeds@, r, told@),
            r.0 <= x <= r.2 + 1,
            forall|u: int|
                r.0 <= u < x && #[trigger] open@[at(wi, u, r.1 as int)] ==> seen@[at(wi, u, r.1 as int)],
            forall|u: int|
                r.0 <= u < x && #[trigger] open@[at(wi, u, r.3 as int)] ==> seen@[at(wi, u, r.3 as int)],
        decreases r.2 + 1 - x,
    {
        let ghost was = seen@;
        proof {
            lemma_at_split(wi, x as int, r.1 as int);
            lemma_at_split(wi, x as int, r.3 as int);
            assert forall|u: int| r.0 <= u <= r.2 implies 0 <= #[trigger] at(wi, u, r.1 as int) < wi * hi && 0 <= at(
                wi,
                u,
                r.3 as int,
            ) < wi * hi by {
                lemma_at_bound(wi, hi, u, r.1 as int);
                lemma_at_bound(wi, hi, u, r.3 as int);
            }
        }
        plant(w, h, &open, &mut seen, &mut seeds, x, r.1, Ghost(r), Ghost(told@));
        plant(w, h, &open, &mut seen, &mut seeds, x, r.3, Ghost(r), Ghost(told@));
        proof {
            assert forall|u: int| r.0 <= u < x + 1 && #[trigger] open@[at(wi, u, r.3 as int)] implies seen@[at(
                wi,
                u,
                r.3 as int,
            )] by {
                lemma_at_bound(wi, hi, u, r.3 as int);
            }
        }
        x += 1;
    }
    let mut y: u32 = r.1;
    let ghost rows = seen@;
    while y <= r.3
        invariant
            wi == w,
            hi == h,
            w * h <= usize::MAX,
            rect_on(r, wi, hi),
            open.wf(),
            seen.wf(),
            planting(wi, hi, open@, seen@, seeds@, r, told@),
            rows.len() == seen@.len(),
            forall|k: int| 0 <= k < rows.len() && #[trigger] rows[k] ==> seen@[k],
            r.1 <= y <= r.3 + 1,
            forall|v: int|
                r.1 <= v < y && #[trigger] open@[at(wi, r.0 as int, v)] ==> seen@[at(wi, r.0 as int, v)],
            forall|v: int|
                r.1 <= v < y && #[trigger] open@[at(wi, r.2 as int, v)] ==> seen@[at(wi, r.2 as int, v)],
        decreases r.3 + 1 - y,
    {
        proof {
            lemma_at_split(wi, r.0 as int, y as int);
            lemma_at_split(wi, r.2 as int, y as int);
            assert forall|v: int| r.1 <= v <= r.3 implies 0 <= #[trigger] at(wi, r.0 as int, v) < wi * hi && 0 <= at(
                wi,
                r.2 as int,
                v,
            ) < wi * hi by {
                lemma_at_bound(wi, hi, r.0 as int, v);
                lemma_at_bound(wi, hi, r.2 as int, v);
            }
        }
        plant(w, h, &open, &mut seen, &mut seeds, r.0, y, Ghost(r), Ghost(told@));
        plant(w, h, &open, &mut seen, &mut seeds, r.2, y, Ghost(r), Ghost(told@));
        proof {
            assert forall|v: int| r.1 <= v < y + 1 && #[trigger] open@[at(wi, r.2 as int, v)] implies seen@[at(
                wi,
                r.2 as int,
                v,
            )] by {
                lemma_at_bound(wi, hi, r.2 as int, v);
            }
        }
        y += 1;
    }
    let ghost lined = seen@;
    let mut i: usize = 0;
    while i < n
        invariant
            wi == w,
            hi == h,
            n == wi * hi <= usize::MAX,
            0 < wi,
            told@.len() == n,
            open.wf(),
            seen.wf(),
            planting(wi, hi, open@, seen@, seeds@, r, told@),
            lined.len() == n,
            forall|k: int| 0 <= k < n && #[trigger] lined[k] ==> seen@[k],
            i <= n,
            forall|k: int| 0 <= k < i && told@[k] && open@[k] ==> #[trigger] seen@[k],
        decreases n - i,
    {
        let ghost was = seen@;
        if told[i] {
            proof {
                crate::cutout::cells::lemma_small_place(wi, hi, i as int);
            }
            plant(
                w,
                h,
                &open,
                &mut seen,
                &mut seeds,
                (i % (w as usize)) as u32,
                (i / (w as usize)) as u32,
                Ghost(r),
                Ghost(told@),
            );
        }
        assert forall|k: int| 0 <= k < i + 1 && told@[k] && open@[k] implies #[trigger] seen@[k] by {
            if k < i {
                assert(was[k]);
            }
        }
        i += 1;
    }
    let ghost marked = seen@;
    let ghost first = seeds@;
    proof {
        assert forall|i: int| 0 <= i < n && open@[i] && starts(wi, r, told@, i) implies #[trigger] marked[i] by {
            lemma_at_join(wi, hi, i);
            let (u, v) = (i % wi, i / wi);
            assert(open@[at(wi, u, v)]);
            if on_outline(r, u, v) {
                if v == r.1 {
                    assert(rows[at(wi, u, r.1 as int)]);
                } else if v == r.3 {
                    assert(rows[at(wi, u, r.3 as int)]);
                } else if u == r.0 {
                    assert(lined[at(wi, r.0 as int, v)]);
                } else {
                    assert(lined[at(wi, r.2 as int, v)]);
                }
                assert(lined[i]);
            }
        }
    }
    let found: Vec<usize> = flood(w as usize, h as usize, &open, false, &mut seen, seeds);
    proof {
        lemma_fill_exact(wi, open@, marked, first, seen@, found@, r, told@);
    }
    let mut filled: Vec<bool> = Vec::with_capacity(n);
    let mut k: usize = 0;
    while k < n
        invariant
            n == seen@.len(),
            seen.wf(),
            k <= n,
            filled@.len() == k,
            forall|j: int| 0 <= j < k ==> #[trigger] filled@[j] == seen@[j],
        decreases n - k,
    {
        filled.push(seen.get(k));
        k += 1;
    }
    filled
}

/// A search from every candidate where it starts marks exactly what is reached.
proof fn lemma_fill_exact(
    w: int,
    open: Seq<bool>,
    marked: Seq<bool>,
    seeds: Seq<usize>,
    seen: Seq<bool>,
    found: Seq<usize>,
    r: Rect,
    told: Seq<bool>,
)
    requires
        open.len() == marked.len() <= usize::MAX,
        search_ok(w, false, open, marked, seen, seeds, found),
        searched(w, false, open, seen, found, found.len() as int),
        forall|k: int|
            0 <= k < seeds.len() ==> (#[trigger] seeds[k]) < open.len() && open[seeds[k] as int] && starts(
                w,
                r,
                told,
                seeds[k] as int,
            ),
        forall|i: int| 0 <= i < open.len() ==> (#[trigger] marked[i] <==> seeds.contains(i as usize)),
        forall|i: int|
            0 <= i < open.len() && open[i] && starts(w, r, told, i) ==> #[trigger] marked[i],
    ensures
        forall|i: int| 0 <= i < open.len() ==> #[trigger] seen[i] == reached(w, open, r, told, i),
{
    reveal(search_ok);
    reveal(searched);
    let s = Set::new(|j: int| 0 <= j < open.len() && found.contains(j as usize));
    assert forall|i: int| 0 <= i < open.len() implies (#[trigger] seen[i] <==> s.contains(i)) by {
        if marked[i] {
            let k = choose|k: int| 0 <= k < seeds.len() && seeds[k] == i as usize;
            assert(found.subrange(0, seeds.len() as int)[k] == found[k]);
        }
    }
    assert forall|p: int, q: int|
        s.contains(p) && 0 <= q < open.len() && open[q] && #[trigger] touching(w, false, p, q)
        implies s.contains(q) by {
        let k = choose|k: int| 0 <= k < found.len() && found[k] == p as usize;
        assert(touching(w, false, found[k] as int, q));
        assert(seen[q]);
    }
    assert forall|i: int| 0 <= i < open.len() implies #[trigger] seen[i] == reached(w, open, r, told, i) by {
        if seen[i] {
            assert(s.contains(i));
            let k = choose|k: int| 0 <= k < found.len() && found[k] == i as usize;
            assert(from_seed(w, false, open, seeds, found[k] as int));
            let a = choose|a: int|
                0 <= a < seeds.len() && joined(w, false, open, #[trigger] seeds[a] as int, found[k] as int);
            assert(joined(w, false, open, seeds[a] as int, i));
        }
        if reached(w, open, r, told, i) {
            let a = choose|a: int|
                0 <= a < open.len() && starts(w, r, told, a) && #[trigger] joined(w, false, open, a, i);
            crate::cutout::connect::lemma_joined_open(w, false, open, a, i);
            assert(marked[a]);
            assert(seen[a]);
            lemma_joined_within(w, false, open, a, i, s);
        }
    }
}

/// What is foreground whatever its colour, and what is marked as background.
fn marked_pixels(w: u32, h: u32, opts: &FloodOptions<'_>) -> (r: (Vec<bool>, Vec<bool>))
    requires
        w * h <= usize::MAX,
        opts.wf(),
    ensures
        r.0@.len() == w * h,
        forall|i: int| 0 <= i < r.0@.len() ==> #[trigger] r.0@[i] == opts.keeps(w, h, i),
        r.1@ == opts.dropped(w, h, (w * h) as nat),
{
    let mut kept: Vec<bool> = protected_pixels(w, h, opts.fg_seeds.as_slice());
    let n: usize = kept.len();
    let mut told: Vec<bool> = vec![false; n];
    if let Some(c) = opts.constraints {
        if c.width() == w && c.height() == h {
            let ghost had = kept@;
            let mut i: usize = 0;
            while i < n
                invariant
                    c.wf(),
                    c.w() == w,
                    c.h() == h,
                    n == w * h == kept@.len() == told@.len() == had.len(),
                    i <= n,
                    forall|k: int| 0 <= k < i ==> #[trigger] kept@[k] == (had[k] || c.fg()[k]),
                    forall|k: int| i <= k < n ==> #[trigger] kept@[k] == had[k],
                    forall|k: int| 0 <= k < i ==> #[trigger] told@[k] == c.bg()[k],
                decreases n - i,
            {
                if c.has_fg(i) {
                    kept.set(i, true);
                }
                told.set(i, c.has_bg(i));
                i += 1;
            }
            assert(forall|k: int| 0 <= k < n ==> had[k] == protects(w, h, opts.fg_seeds@, k));
        }
    }
    assert(told@ =~= opts.dropped(w, h, (w * h) as nat));
    (kept, told)
}

/// The discs around the seeds. A seed outside the image protects nothing.
pub fn protected_pixels(w: u32, h: u32, seeds: &[(u32, u32)]) -> (r: Vec<bool>)
    requires
        w * h <= usize::MAX,
    ensures
        r@.len() == w * h,
        forall|i: int| 0 <= i < r@.len() ==> #[trigger] r@[i] == protects(w, h, seeds@, i),
{
    let n: usize = (w as usize) * (h as usize);
    let mut r: Vec<bool> = vec![false; n];
    let mut k: usize = 0;
    while k < seeds.len()
        invariant
            n == w * h <= usize::MAX,
            r@.len() == n,
            k <= seeds@.len(),
            forall|i: int| 0 <= i < n ==> #[trigger] r@[i] == protects(w, h, seeds@.take(k as int), i),
        decreases seeds@.len() - k,
    {
        let (sx, sy) = seeds[k];
        let places: Vec<usize> = disc_pixels(w, h, sx, sy, FG_SEED_RADIUS);
        let ghost area = disc(w, h, sx, sy, FG_SEED_RADIUS);
        let ghost had = r@;
        proof {
            lemma_ones(area);
            assert(places@.map_values(|v: usize| v as int).len() == places@.len());
        }
        let mut j: usize = 0;
        while j < places.len()
            invariant
                n == r@.len() == had.len() == area.len(),
                j <= places@.len(),
                places@.len() == ones(area).len(),
                lists(places@, area),
                forall|a: int| 0 <= a < ones(area).len() ==> 0 <= #[trigger] ones(area)[a] < area.len() && area[ones(
                    area,
                )[a]],
                forall|i: int|
                    0 <= i < n ==> #[trigger] r@[i] == (had[i] || exists|a: int|
                        0 <= a < j && #[trigger] ones(area)[a] == i),
            decreases places@.len() - j,
        {
            let p: usize = places[j];
            assert(places@.map_values(|v: usize| v as int)[j as int] == p);
            assert(ones(area)[j as int] == p);
            let ghost was = r@;
            r.set(p, true);
            proof {
                assert forall|i: int| 0 <= i < n implies #[trigger] r@[i] == (had[i] || exists|a: int|
                    0 <= a < j + 1 && #[trigger] ones(area)[a] == i) by {
                    if i != p {
                        assert(r@[i] == was[i]);
                    }
                }
            }
            j += 1;
        }
        proof {
            let shorter = seeds@.take(k as int);
            let longer = seeds@.take(k + 1);
            assert forall|i: int| 0 <= i < n implies #[trigger] r@[i] == protects(w, h, longer, i) by {
                assert((exists|a: int| 0 <= a < j && #[trigger] ones(area)[a] == i) <==> area[i]) by {
                    if area[i] {
                        assert(ones(area).contains(i));
                    }
                }
                if area[i] {
                    assert(longer[k as int] == (sx, sy));
                    assert(protects(w, h, longer, i));
                }
                if had[i] {
                    let a = choose|a: int|
                        0 <= a < shorter.len() && disc(w, h, (#[trigger] shorter[a]).0, shorter[a].1, FG_SEED_RADIUS)[i];
                    assert(longer[a] == shorter[a]);
                }
                if protects(w, h, longer, i) {
                    let a = choose|a: int|
                        0 <= a < longer.len() && disc(w, h, (#[trigger] longer[a]).0, longer[a].1, FG_SEED_RADIUS)[i];
                    if a < k {
                        assert(longer[a] == shorter[a]);
                        assert(protects(w, h, shorter, i));
                    }
                }
            }
        }
        k += 1;
    }
    assert(seeds@.take(k as int) =~= seeds@);
    r
}

} // verus!

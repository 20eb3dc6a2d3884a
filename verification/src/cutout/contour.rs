//! The contour of a mask and distances from it.
use vstd::prelude::*;

use crate::cutout::chamfer::{is_distance, span, sweep};
use crate::cutout::mask::{Mask, FOREGROUND_THRESHOLD};
use crate::cutout::morphology::BitPlane;
use crate::geometry::{
    at, box_of_any, in_rect, lemma_at_bound, lemma_at_join, lemma_at_split, lemma_row_before, on_plane, rect_on,
    Bounds, Rect,
};
use crate::tally::{lemma_ones_skip, lemma_tally_step, ones};

verus! {

/// One pixel of distance is this many units.
pub const CHAMFER_STEP: u8 = 3;

/// Distances are cut off at this many pixels.
pub const CHAMFER_MAX_PX: u32 = 85;

/// `(x, y)` lies in the box, or there is none.
pub open spec fn in_box(bbox: Option<Rect>, x: int, y: int) -> bool {
    match bbox {
        Some(r) => in_rect(r, x, y),
        None => true,
    }
}

/// A pixel beside the foreground at which the mask ends: on the image, in the
/// box, and not foreground.
pub open spec fn ends_at(mask: &Mask, bbox: Option<Rect>, x: int, y: int) -> bool {
    mask.inside(x, y) && in_box(bbox, x, y) && !mask.fg(x, y)
}

/// `(x, y)` is foreground beside such a pixel. The border of the image and the
/// edge of the box draw no contour: they say where the picture was cut, not what
/// is in it.
pub open spec fn on_contour(mask: &Mask, bbox: Option<Rect>, x: int, y: int) -> bool {
    mask.fg(x, y) && (ends_at(mask, bbox, x - 1, y) || ends_at(mask, bbox, x + 1, y) || ends_at(
        mask,
        bbox,
        x,
        y - 1,
    ) || ends_at(mask, bbox, x, y + 1))
}

/// The contour within a rectangle, as a plane.
pub open spec fn contour_plane(mask: &Mask, bbox: Option<Rect>, roi: Rect) -> Seq<bool> {
    let w = mask.w() as int;
    Seq::new(mask@.len(), |i: int| in_rect(roi, i % w, i / w) && on_contour(mask, bbox, i % w, i / w))
}

/// `r` lists the set pixels of a plane, row by row.
pub open spec fn lists_pixels(r: Seq<(u32, u32)>, w: int, s: Seq<bool>) -> bool {
    &&& r.len() == ones(s).len()
    &&& forall|k: int| 0 <= k < r.len() ==> (#[trigger] r[k]).0 < w
    &&& forall|k: int| 0 <= k < r.len() ==> at(w, (#[trigger] r[k]).0 as int, r[k].1 as int) == ones(s)[k]
}

/// The whole image.
pub open spec fn whole(mask: &Mask) -> Rect {
    (0, 0, (mask.w() - 1) as u32, (mask.h() - 1) as u32)
}

/// The contour of the mask, row by row.
pub fn contour_pixels(mask: &Mask, bbox: Option<Rect>) -> (r: Vec<(u32, u32)>)
    requires
        mask.wf(),
        0 < mask.w(),
        0 < mask.h(),
    ensures
        lists_pixels(r@, mask.w() as int, contour_plane(mask, bbox, whole(mask))),
{
    let roi: Rect = (0, 0, mask.width() - 1, mask.height() - 1);
    contour_pixels_in(mask, bbox, roi)
}

/// The foreground along what is none, the frame of the image included.
pub open spec fn rim_plane(mask: &Mask) -> Seq<bool> {
    let w = mask.w() as int;
    Seq::new(mask@.len(), |i: int| mask.fg(i % w, i / w) && mask.bare_side(i % w, i / w))
}

/// The pixels along the rim of the foreground, row by row. Unlike the contour, the
/// rim runs along the frame where the foreground is cut off there.
pub fn rim_pixels(mask: &Mask) -> (r: Vec<(u32, u32)>)
    requires
        mask.wf(),
    ensures
        lists_pixels(r@, mask.w() as int, rim_plane(mask)),
{
    let w: u32 = mask.width();
    let ghost (wi, hi) = (mask.w() as int, mask.h() as int);
    let n: usize = mask.as_slice().len();
    let ghost s = rim_plane(mask);
    let mut r: Vec<(u32, u32)> = Vec::new();
    assert(s.take(0) =~= Seq::empty());
    let mut i: usize = 0;
    while i < n
        invariant
            mask.wf(),
            wi == w == mask.w(),
            hi == mask.h(),
            n == mask@.len() == wi * hi,
            s == rim_plane(mask),
            i <= n,
            lists_pixels(r@, wi, s.take(i as int)),
        decreases n - i,
    {
        proof {
            crate::cutout::cells::lemma_small_place(wi, hi, i as int);
            lemma_tally_step(s, i as int);
        }
        let x: u32 = (i % (w as usize)) as u32;
        let y: u32 = (i / (w as usize)) as u32;
        let ghost had = r@;
        if mask.is_foreground(x, y) && mask.touches_background(x, y) {
            r.push((x, y));
            proof {
                let list = ones(s.take(i + 1));
                assert forall|k: int| 0 <= k < r@.len() implies at(wi, (#[trigger] r@[k]).0 as int, r@[k].1 as int)
                    == list[k] by {
                    if k < had.len() {
                        assert(r@[k] == had[k]);
                    }
                }
                assert forall|k: int| 0 <= k < r@.len() implies (#[trigger] r@[k]).0 < wi by {
                    if k < had.len() {
                        assert(r@[k] == had[k]);
                    }
                }
            }
        }
        i += 1;
    }
    assert(s.take(n as int) =~= s);
    r
}

fn ends(mask: &Mask, bbox: Option<Rect>, x: u32, y: u32) -> (r: bool)
    requires
        mask.wf(),
        mask.inside(x as int, y as int),
    ensures
        r == ends_at(mask, bbox, x as int, y as int),
{
    let boxed: bool = match bbox {
        Some(b) => x >= b.0 && x <= b.2 && y >= b.1 && y <= b.3,
        None => true,
    };
    boxed && !mask.is_foreground(x, y)
}

/// The contour within a rectangle, row by row. What counts as the border is
/// decided by the image, not by the rectangle.
pub fn contour_pixels_in(mask: &Mask, bbox: Option<Rect>, roi: Rect) -> (r: Vec<(u32, u32)>)
    requires
        mask.wf(),
        rect_on(roi, mask.w() as int, mask.h() as int),
    ensures
        lists_pixels(r@, mask.w() as int, contour_plane(mask, bbox, roi)),
{
    let w: u32 = mask.width();
    let h: u32 = mask.height();
    let ghost (wi, hi) = (w as int, h as int);
    let ghost s = contour_plane(mask, bbox, roi);
    let mut r: Vec<(u32, u32)> = Vec::new();
    let ghost mut done: int = 0;
    assert(s.take(0) =~= Seq::empty());
    let mut y: u32 = roi.1;
    proof {
        lemma_at_bound(wi, hi, 0, y as int);
        assert forall|i: int| 0 <= i < at(wi, 0, y as int) implies !(#[trigger] s[i]) by {
            lemma_row_before(wi, i, y as int);
        }
    }
    while y <= roi.3
        invariant
            mask.wf(),
            wi == w == mask.w(),
            hi == h == mask.h(),
            rect_on(roi, wi, hi),
            s == contour_plane(mask, bbox, roi),
            roi.1 <= y <= roi.3 + 1,
            0 <= done <= at(wi, 0, y as int),
            done <= s.len(),
            forall|i: int| done <= i < at(wi, 0, y as int) && i < s.len() ==> !(#[trigger] s[i]),
            lists_pixels(r@, wi, s.take(done)),
        decreases roi.3 + 1 - y,
    {
        let mut x: u32 = roi.0;
        proof {
            lemma_at_bound(wi, hi, roi.0 as int, y as int);
            assert forall|i: int| done <= i < at(wi, roi.0 as int, y as int) implies !(#[trigger] s[i]) by {
                if i >= at(wi, 0, y as int) {
                    lemma_at_split(wi, i - y * wi, y as int);
                }
            }
        }
        while x <= roi.2
            invariant
                mask.wf(),
                wi == w == mask.w(),
                hi == h == mask.h(),
                rect_on(roi, wi, hi),
                s == contour_plane(mask, bbox, roi),
                roi.1 <= y <= roi.3,
                roi.0 <= x <= roi.2 + 1,
                0 <= done <= at(wi, x as int, y as int) <= s.len(),
                forall|i: int| done <= i < at(wi, x as int, y as int) ==> !(#[trigger] s[i]),
                lists_pixels(r@, wi, s.take(done)),
            decreases roi.2 + 1 - x,
        {
            proof {
                lemma_at_bound(wi, hi, x as int, y as int);
                lemma_at_split(wi, x as int, y as int);
            }
            let ghost i = at(wi, x as int, y as int);
            let touches: bool = mask.is_foreground(x, y) && ((x > 0 && ends(mask, bbox, x - 1, y)) || (x + 1 < w
                && ends(mask, bbox, x + 1, y)) || (y > 0 && ends(mask, bbox, x, y - 1)) || (y + 1 < h && ends(
                mask,
                bbox,
                x,
                y + 1,
            )));
            assert(touches == s[i]);
            if touches {
                let ghost had = r@;
                r.push((x, y));
                proof {
                    lemma_ones_skip(s, done, i);
                    lemma_tally_step(s, i);
                    let now = ones(s.take(i + 1));
                    assert forall|k: int| 0 <= k < r@.len() implies at(wi, (#[trigger] r@[k]).0 as int, r@[k].1 as int)
                        == now[k] by {
                        if k < had.len() {
                            assert(r@[k] == had[k]);
                        }
                    }
                    done = i + 1;
                }
            }
            x += 1;
        }
        proof {
            lemma_at_bound(wi, hi, wi - 1, y as int);
            assert(at(wi, 0, y + 1) == at(wi, wi - 1, y as int) + 1) by (nonlinear_arith)
                requires
                    at(wi, 0, y + 1) == (y + 1) * wi,
                    at(wi, wi - 1, y as int) == y * wi + wi - 1,
            ;
            assert forall|i: int| done <= i < at(wi, 0, y + 1) implies !(#[trigger] s[i]) by {
                if i >= at(wi, x as int, y as int) {
                    lemma_at_split(wi, i - y * wi, y as int);
                }
            }
        }
        y += 1;
    }
    proof {
        assert forall|i: int| done <= i < s.len() implies !(#[trigger] s[i]) by {
            if i >= at(wi, 0, y as int) {
                lemma_at_join(wi, hi, i);
                lemma_row_before(wi, i, y as int);
            }
        }
        lemma_ones_skip(s, done, s.len() as int);
        assert(s.take(s.len() as int) =~= s);
    }
    r
}

/// The pixels of a list.
pub open spec fn pixel_set(r: Seq<(u32, u32)>) -> Set<(int, int)> {
    Set::new(|p: (int, int)| exists|k: int| 0 <= k < r.len() && p == ((#[trigger] r[k]).0 as int, r[k].1 as int))
}

/// A rectangle grown by `margin` on every side and cut off at the image.
pub open spec fn grown(r: Rect, margin: int, w: int, h: int) -> Rect {
    (
        if r.0 < margin { 0 } else { (r.0 - margin) as u32 },
        if r.1 < margin { 0 } else { (r.1 - margin) as u32 },
        if r.2 + margin < w - 1 { (r.2 + margin) as u32 } else { (w - 1) as u32 },
        if r.3 + margin < h - 1 { (r.3 + margin) as u32 } else { (h - 1) as u32 },
    )
}

/// Grows a rectangle by `margin` on every side, within the image.
pub fn grow(rect: Rect, margin: u32, w: u32, h: u32) -> (r: Rect)
    requires
        rect_on(rect, w as int, h as int),
    ensures
        r == grown(rect, margin as int, w as int, h as int),
        rect_on(r, w as int, h as int),
        r.0 <= rect.0 && r.1 <= rect.1 && rect.2 <= r.2 && rect.3 <= r.3,
{
    (
        if rect.0 < margin { 0 } else { rect.0 - margin },
        if rect.1 < margin { 0 } else { rect.1 - margin },
        if margin < w - 1 - rect.2 { rect.2 + margin } else { w - 1 },
        if margin < h - 1 - rect.3 { rect.3 + margin } else { h - 1 },
    )
}

/// The bounding box of some pixels, grown by `margin` within the image.
pub fn around(contour: &[(u32, u32)], w: u32, h: u32, margin: u32) -> (r: Rect)
    requires
        contour@.len() > 0,
        forall|k: int|
            0 <= k < contour@.len() ==> on_plane(
                w as int,
                h as int,
                (#[trigger] contour@[k]).0 as int,
                contour@[k].1 as int,
            ),
    ensures
        rect_on(r, w as int, h as int),
        forall|k: int|
            0 <= k < contour@.len() ==> in_rect(r, (#[trigger] contour@[k]).0 as int, contour@[k].1 as int),
        exists|b: Rect| #[trigger]
            box_of_any(pixel_set(contour@), Some(b)) && r == grown(b, margin as int, w as int, h as int) && rect_on(
                b,
                w as int,
                h as int,
            ),
{
    let mut bounds: Bounds = Bounds::new();
    let mut i: usize = 0;
    let ghost all = pixel_set(contour@);
    assert(pixel_set(contour@.take(0)) =~= Set::empty());
    while i < contour.len()
        invariant
            i <= contour@.len(),
            bounds.holds(pixel_set(contour@.take(i as int))),
        decreases contour@.len() - i,
    {
        let (x, y) = contour[i];
        let ghost seen = pixel_set(contour@.take(i as int));
        bounds.insert(x, y, Ghost(seen));
        proof {
            let next = contour@.take(i + 1);
            assert forall|p: (int, int)| seen.insert((x as int, y as int)).contains(p) <==> pixel_set(next).contains(
                p,
            ) by {
                if seen.contains(p) {
                    let k = choose|k: int|
                        0 <= k < contour@.take(i as int).len() && p == ((#[trigger] contour@.take(i as int)[k]).0 as int, contour@.take(
                            i as int,
                        )[k].1 as int);
                    assert(next[k] == contour@.take(i as int)[k]);
                }
                if p == (x as int, y as int) {
                    assert(next[i as int] == (x, y));
                }
                if pixel_set(next).contains(p) {
                    let k = choose|k: int|
                        0 <= k < next.len() && p == ((#[trigger] next[k]).0 as int, next[k].1 as int);
                    if k < i {
                        assert(contour@.take(i as int)[k] == next[k]);
                    }
                }
            }
            assert(seen.insert((x as int, y as int)) =~= pixel_set(next));
        }
        i += 1;
    }
    assert(contour@.take(i as int) =~= contour@);
    match bounds.finish(Ghost(all)) {
        Some(b) => {
            proof {
                let p = choose|p: (int, int)| #[trigger] all.contains(p) && p.0 == b.0;
                let q = choose|p: (int, int)| #[trigger] all.contains(p) && p.0 == b.2;
                let s = choose|p: (int, int)| #[trigger] all.contains(p) && p.1 == b.3;
                assert(in_rect(b, p.0, p.1));
                assert forall|k: int| 0 <= k < contour@.len() implies in_rect(
                    b,
                    (#[trigger] contour@[k]).0 as int,
                    contour@[k].1 as int,
                ) by {
                    assert(all.contains((contour@[k].0 as int, contour@[k].1 as int)));
                }
            }
            grow(b, margin, w, h)
        },
        None => {
            proof {
                let first = (contour@[0].0 as int, contour@[0].1 as int);
                assert(all.contains(first));
                assert(false);
            }
            (0, 0, 0, 0)
        },
    }
}

/// `v` is the distance from `(x, y)` to the nearest of the seeds in `roi`, cut
/// off at 255.
pub open spec fn seed_distance(seeds: Seq<(u32, u32)>, roi: Rect, x: int, y: int, v: int) -> bool {
    &&& 0 <= v <= 255
    &&& forall|k: int|
        0 <= k < seeds.len() && in_rect(roi, (#[trigger] seeds[k]).0 as int, seeds[k].1 as int) ==> v <= span(
            true,
            x - seeds[k].0,
            y - seeds[k].1,
        )
    &&& v == 255 || exists|k: int|
        0 <= k < seeds.len() && in_rect(roi, (#[trigger] seeds[k]).0 as int, seeds[k].1 as int) && v == span(
            true,
            x - seeds[k].0,
            y - seeds[k].1,
        )
}

/// Distances within a rectangle. What lies outside was not measured and reads as
/// 255.
pub struct Field {
    data: Vec<u8>,
    x0: u32,
    y0: u32,
    x1: u32,
    y1: u32,
}

impl Field {
    /// The rectangle that was measured.
    pub closed spec fn area(&self) -> Rect {
        (self.x0, self.y0, self.x1, self.y1)
    }

    /// The distance at a pixel.
    pub closed spec fn value(&self, x: int, y: int) -> u8 {
        if in_rect(self.area(), x, y) {
            self.data@[at(self.x1 - self.x0 + 1, x - self.x0, y - self.y0)]
        } else {
            255
        }
    }

    pub closed spec fn sized(&self) -> bool {
        self.data@.len() == (self.x1 - self.x0 + 1) * (self.y1 - self.y0 + 1)
    }

    /// There is one distance for each pixel of the rectangle.
    pub open spec fn wf(&self) -> bool {
        &&& self.area().0 <= self.area().2 < u32::MAX
        &&& self.area().1 <= self.area().3 < u32::MAX
        &&& self.sized()
        &&& forall|x: int, y: int| !in_rect(self.area(), x, y) ==> #[trigger] self.value(x, y) == 255
    }

    pub fn at(&self, x: u32, y: u32) -> (r: u8)
        requires
            self.wf(),
        ensures
            r == self.value(x as int, y as int),
    {
        if x < self.x0 || x > self.x1 || y < self.y0 || y > self.y1 {
            return 255;
        }
        let w: usize = (self.x1 - self.x0) as usize + 1;
        proof {
            lemma_at_bound(w as int, self.y1 - self.y0 + 1, x - self.x0, y - self.y0);
            assert(self.data.len() <= usize::MAX);
        }
        self.data[((y - self.y0) as usize) * w + (x - self.x0) as usize]
    }
}

/// Measures the distance to the nearest seed for every pixel of `roi`, in thirds
/// of a pixel and cut off at 255. Only seeds within `roi` count.
pub fn chamfer_distance(seeds: &[(u32, u32)], roi: Rect) -> (f: Field)
    requires
        roi.0 <= roi.2,
        roi.1 <= roi.3,
        roi.2 < u32::MAX,
        roi.3 < u32::MAX,
        (roi.2 - roi.0 + 1) * (roi.3 - roi.1 + 1) <= usize::MAX,
    ensures
        f.wf(),
        f.area() == roi,
        forall|x: int, y: int|
            in_rect(roi, x, y) ==> seed_distance(seeds@, roi, x, y, (#[trigger] f.value(x, y)) as int),
{
    let w: usize = (roi.2 - roi.0) as usize + 1;
    let h: usize = (roi.3 - roi.1) as usize + 1;
    let ghost (wi, hi) = (w as int, h as int);
    let ghost (x0, y0) = (roi.0 as int, roi.1 as int);
    let mut d: Vec<u8> = vec![255u8; w * h];
    let ghost mut seed: Seq<bool> = Seq::new((w * h) as nat, |i: int| false);
    let mut k: usize = 0;
    proof {
        assert forall|a: int, b: int| on_plane(wi, hi, a, b) implies !(#[trigger] seed[at(wi, a, b)]) by {
            lemma_at_bound(wi, hi, a, b);
        }
    }
    while k < seeds.len()
        invariant
            wi == w == roi.2 - roi.0 + 1,
            hi == h == roi.3 - roi.1 + 1,
            x0 == roi.0,
            y0 == roi.1,
            w * h <= usize::MAX,
            d@.len() == seed.len() == w * h,
            k <= seeds@.len(),
            forall|i: int| 0 <= i < seed.len() ==> #[trigger] d@[i] == if seed[i] { 0u8 } else { 255u8 },
            forall|a: int, b: int|
                on_plane(wi, hi, a, b) ==> (#[trigger] seed[at(wi, a, b)] <==> exists|j: int|
                    0 <= j < k && (#[trigger] seeds@[j]).0 == a + x0 && seeds@[j].1 == b + y0),
        decreases seeds@.len() - k,
    {
        let (x, y) = seeds[k];
        let ghost was = seed;
        if x >= roi.0 && x <= roi.2 && y >= roi.1 && y <= roi.3 {
            let (lx, ly): (usize, usize) = ((x - roi.0) as usize, (y - roi.1) as usize);
            proof {
                lemma_at_bound(wi, hi, lx as int, ly as int);
            }
            let i: usize = ly * w + lx;
            d.set(i, 0);
            proof {
                seed = seed.update(i as int, true);
                crate::cutout::chamfer::lemma_updated(was, seed, wi, hi, lx as int, ly as int, true);
            }
        }
        proof {
            assert forall|a: int, b: int| on_plane(wi, hi, a, b) implies (#[trigger] seed[at(wi, a, b)]
                <==> exists|j: int| 0 <= j < k + 1 && (#[trigger] seeds@[j]).0 == a + x0 && seeds@[j].1 == b + y0) by {
                if x == a + x0 && y == b + y0 {
                    assert(seeds@[k as int].0 == a + x0 && seeds@[k as int].1 == b + y0);
                } else {
                    assert(seed[at(wi, a, b)] == was[at(wi, a, b)]);
                }
            }
        }
        k += 1;
    }
    proof {
        assert forall|x: int, y: int| on_plane(wi, hi, x, y) implies #[trigger] d@[at(wi, x, y)] == if seed[at(
            wi,
            x,
            y,
        )] { 0u8 } else { 255u8 } by {
            lemma_at_bound(wi, hi, x, y);
        }
    }
    sweep(&mut d, w, h, true, Ghost(seed));
    let f: Field = Field { data: d, x0: roi.0, y0: roi.1, x1: roi.2, y1: roi.3 };
    proof {
        assert forall|x: int, y: int| in_rect(roi, x, y) implies seed_distance(
            seeds@,
            roi,
            x,
            y,
            (#[trigger] f.value(x, y)) as int,
        ) by {
            let v = f.value(x, y) as int;
            let (a, b) = (x - x0, y - y0);
            assert(f.value(x, y) == f.data@[at(wi, a, b)]);
            assert(is_distance(true, seed, wi, hi, 255, a, b, f.data@[at(wi, a, b)] as int));
            assert forall|j: int|
                0 <= j < seeds@.len() && in_rect(roi, (#[trigger] seeds@[j]).0 as int, seeds@[j].1 as int) implies v
                <= span(true, x - seeds@[j].0, y - seeds@[j].1) by {
                let (p, q) = (seeds@[j].0 - x0, seeds@[j].1 - y0);
                assert(seed[at(wi, p, q)]);
            }
            if v != 255 {
                let (p, q) = choose|p: int, q: int|
                    on_plane(wi, hi, p, q) && #[trigger] seed[at(wi, p, q)] && span(true, a - p, b - q) == v;
                assert(seed[at(wi, p, q)]);
                let j = choose|j: int|
                    0 <= j < k && (#[trigger] seeds@[j]).0 == p + x0 && seeds@[j].1 == q + y0;
                assert(v == span(true, x - seeds@[j].0, y - seeds@[j].1));
            }
        }
    }
    f
}

/// The distance from every pixel of an image to the nearest of some pixels, in
/// thirds of a pixel and cut off at 255. Without any there is no distance.
pub fn contour_distance_px(width: u32, height: u32, seeds: &[(u32, u32)]) -> (r: Option<Vec<u8>>)
    requires
        0 < width,
        0 < height,
        width * height <= usize::MAX,
    ensures
        r is None <==> seeds@.len() == 0,
        r matches Some(d) ==> d@.len() == width * height && forall|x: int, y: int|
            on_plane(width as int, height as int, x, y) ==> seed_distance(
                seeds@,
                (0, 0, (width - 1) as u32, (height - 1) as u32),
                x,
                y,
                (#[trigger] d@[at(width as int, x, y)]) as int,
            ),
{
    if seeds.len() == 0 {
        return None;
    }
    let f: Field = chamfer_distance(seeds, (0, 0, width - 1, height - 1));
    let d: Vec<u8> = f.data;
    proof {
        assert forall|x: int, y: int| on_plane(width as int, height as int, x, y) implies seed_distance(
            seeds@,
            (0, 0, (width - 1) as u32, (height - 1) as u32),
            x,
            y,
            (#[trigger] d@[at(width as int, x, y)]) as int,
        ) by {
            assert(f.value(x, y) == d@[at(width as int, x, y)]);
        }
    }
    Some(d)
}

/// The pixels that are farther than `reach` pixels from every seed. Distances are
/// cut off, so beyond that nothing counts as farther.
pub fn farther_than(w: u32, h: u32, seeds: &[(u32, u32)], reach: u32) -> (r: BitPlane)
    requires
        0 < w,
        0 < h,
        w * h <= usize::MAX,
    ensures
        r.wf(),
        r@.len() == w * h,
        forall|x: int, y: int|
            on_plane(w as int, h as int, x, y) ==> (#[trigger] r@[at(w as int, x, y)] <==> reach < CHAMFER_MAX_PX && forall|k: int|
                0 <= k < seeds@.len() && on_plane(w as int, h as int, seeds@[k].0 as int, seeds@[k].1 as int)
                    ==> span(true, x - (#[trigger] seeds@[k]).0, y - seeds@[k].1) > 3 * reach),
{
    let ghost (wi, hi) = (w as int, h as int);
    let ghost roi: Rect = (0, 0, (w - 1) as u32, (h - 1) as u32);
    let f: Field = chamfer_distance(seeds, (0, 0, w - 1, h - 1));
    let n: usize = (w as usize) * (h as usize);
    let mut r: BitPlane = BitPlane::new(n);
    let mut i: usize = 0;
    while i < n
        invariant
            f.wf(),
            f.area() == roi,
            roi == (0u32, 0u32, (w - 1) as u32, (h - 1) as u32),
            wi == w,
            hi == h,
            0 < w,
            n == f.data@.len() == w * h,
            i <= n,
            r.wf(),
            r@.len() == n,
            forall|k: int| 0 <= k < i ==> #[trigger] r@[k] == (reach < CHAMFER_MAX_PX && f.data@[k] > 3 * reach),
        decreases n - i,
    {
        r.set(i, reach < CHAMFER_MAX_PX && f.data[i] as u32 > 3 * reach);
        i += 1;
    }
    proof {
        assert forall|x: int, y: int| on_plane(wi, hi, x, y) implies (#[trigger] r@[at(wi, x, y)] <==> reach
            < CHAMFER_MAX_PX && forall|k: int|
            0 <= k < seeds@.len() && on_plane(wi, hi, seeds@[k].0 as int, seeds@[k].1 as int) ==> span(
                true,
                x - (#[trigger] seeds@[k]).0,
                y - seeds@[k].1,
            ) > 3 * reach) by {
            lemma_at_bound(wi, hi, x, y);
            assert(f.value(x, y) == f.data@[at(wi, x, y)]);
            let v = f.value(x, y) as int;
            assert(seed_distance(seeds@, roi, x, y, v));
            assert forall|k: int| 0 <= k < seeds@.len() implies (on_plane(
                wi,
                hi,
                (#[trigger] seeds@[k]).0 as int,
                seeds@[k].1 as int,
            ) <==> in_rect(roi, seeds@[k].0 as int, seeds@[k].1 as int)) by {}
        }
    }
    r
}

/// The distance from every pixel to the nearest pixel that is not foreground, in
/// pixels with diagonals counted as one, and cut off at 255. What lies outside
/// the image is no background: a product cut off by the frame has no rim there.
pub fn background_distance(mask: &Mask) -> (d: Vec<u8>)
    requires
        mask.wf(),
    ensures
        d@.len() == mask@.len(),
        forall|x: int, y: int|
            mask.inside(x, y) ==> is_distance(
                false,
                mask@.map_values(|v: u8| v < FOREGROUND_THRESHOLD),
                mask.w() as int,
                mask.h() as int,
                255,
                x,
                y,
                (#[trigger] d@[at(mask.w() as int, x, y)]) as int,
            ),
{
    let alpha: &[u8] = mask.as_slice();
    let ghost seed = mask@.map_values(|v: u8| v < FOREGROUND_THRESHOLD);
    let mut d: Vec<u8> = Vec::with_capacity(alpha.len());
    let mut i: usize = 0;
    while i < alpha.len()
        invariant
            alpha@ == mask@,
            seed == mask@.map_values(|v: u8| v < FOREGROUND_THRESHOLD),
            i <= alpha@.len(),
            d@.len() == i,
            forall|k: int| 0 <= k < i ==> #[trigger] d@[k] == if seed[k] { 0u8 } else { 255u8 },
        decreases alpha@.len() - i,
    {
        d.push(if alpha[i] >= FOREGROUND_THRESHOLD { 255 } else { 0 });
        i += 1;
    }
    let w: usize = mask.width() as usize;
    let h: usize = mask.height() as usize;
    proof {
        assert forall|x: int, y: int| on_plane(w as int, h as int, x, y) implies #[trigger] d@[at(w as int, x, y)]
            == if seed[at(w as int, x, y)] { 0u8 } else { 255u8 } by {
            lemma_at_bound(w as int, h as int, x, y);
        }
    }
    sweep(&mut d, w, h, false, Ghost(seed));
    d
}

} // verus!

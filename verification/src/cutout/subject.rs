//! Where the product is, as far as the background tells.
//!
//! The largest connected piece that is far from the background is taken for the
//! product. The answer is then checked: a large piece left outside its box means
//! that something was missed.
use vstd::prelude::*;

use crate::cutout::background::UNIFORM_DELTA_E;
use crate::cutout::cells::lemma_small_place;
use crate::cutout::connect::{component, components, ints, is_component, lemma_component_list};
use crate::cutout::morphology::BitPlane;
use crate::geometry::{at, box_of, in_rect, lemma_at_split, rect_on, Bounds, Rect};
use crate::raster::RgbaImage;
use crate::sums::{lemma_sum_flat, lemma_sum_update, sum};
use crate::tally::{lemma_tally_step, tally};

verus! {

/// The product is looked for on a copy with a long edge of at most this.
pub const MEASURE_LONG_EDGE: u32 = 250;

/// Pixels with less alpha than this have no colour.
pub const SUBJECT_ALPHA: u8 = 128;

/// How far the answer can be trusted.
#[derive(Debug, Clone, Copy, PartialEq, Eq, Structural)]
pub enum Confidence {
    High,
    Low,
}

impl Confidence {
    pub fn is_high(self) -> (r: bool)
        ensures
            r == (self == Confidence::High),
    {
        matches!(self, Confidence::High)
    }
}

/// Why an answer is not trusted.
#[derive(Debug, Clone, Copy, PartialEq, Eq, Structural)]
pub enum LowReason {
    /// The piece is too small.
    AreaTooSmall,
    /// What is far from the background does not form one piece.
    NotOneBlob,
    /// Too much is left outside the box.
    LeftoverOutside,
}

/// A stretch of an edge of the image, from `lo / of` to `hi / of`.
#[derive(Debug, Clone, Copy, PartialEq, Eq, Structural)]
pub struct Span {
    pub lo: u64,
    pub hi: u64,
    pub of: u64,
}

/// Where the product is taken to be.
#[derive(Debug, Clone, Copy, PartialEq, Eq)]
pub struct SubjectHint {
    /// The box in pixels of the full image.
    pub bbox: Rect,
    /// The box as shares of the width and of the height.
    pub across: Span,
    pub down: Span,
    /// The size of the piece, of the measured image, of all that is far from the
    /// background, and of the largest piece left outside.
    pub area: u64,
    pub pixels: u64,
    pub far: u64,
    pub leftover: u64,
    /// The mean colour of the piece.
    pub mean: [u8; 3],
    /// Whether the piece reaches the border of the image.
    pub touches_edge: bool,
    pub confidence: Confidence,
}

/// The piece takes up at least 5 % of the image.
pub open spec fn large_enough(area: int, pixels: int) -> bool {
    20 * area >= pixels
}

/// At least 70 % of what is far from the background is in the piece.
pub open spec fn one_blob(area: int, far: int) -> bool {
    10 * area >= 7 * far
}

/// The largest piece left outside takes up less than 15 % of the image.
pub open spec fn little_left(leftover: int, pixels: int) -> bool {
    20 * leftover < 3 * pixels
}

/// The stretch with a hundredth of the edge added on both sides, within the edge.
pub open spec fn widened(s: Span) -> Span {
    Span {
        lo: (if 100 * s.lo < s.of { 0 } else { 100 * s.lo - s.of }) as u64,
        hi: (if 100 * s.hi + s.of < 100 * s.of { 100 * s.hi + s.of } else { 100 * s.of }) as u64,
        of: (100 * s.of) as u64,
    }
}

/// Adds a hundredth of the edge on both sides. A box that is too narrow cuts into
/// the product, one that is too wide only leaves some background.
pub fn expand(s: Span) -> (r: Span)
    requires
        s.of < 0x1_0000_0000,
        s.hi <= s.of,
        s.lo <= s.of,
    ensures
        r == widened(s),
{
    Span {
        lo: if 100 * s.lo < s.of { 0 } else { 100 * s.lo - s.of },
        hi: if 100 * s.hi + s.of < 100 * s.of { 100 * s.hi + s.of } else { 100 * s.of },
        of: 100 * s.of,
    }
}

/// The first and the last pixel of a stretch on an edge of `n` pixels: rounded
/// outward, and at least one pixel.
pub open spec fn pixels_of(s: Span, n: u32) -> (int, int) {
    let lo = (s.lo * n) / (s.of as int);
    let first = if lo < n - 1 { lo } else { n - 1 };
    let hi = (s.hi * n + s.of - 1) / (s.of as int);
    let end = if hi < first + 1 { first + 1 } else if hi > n { n as int } else { hi };
    (first, end - 1)
}

/// Turns a stretch into pixels.
pub fn to_pixels(s: Span, n: u32) -> (r: (u32, u32))
    requires
        0 < n,
        0 < s.of,
    ensures
        r.0 == pixels_of(s, n).0,
        r.1 == pixels_of(s, n).1,
        r.0 <= r.1 < n,
{
    proof {
        assert(0 <= s.lo * n <= 0xffff_ffff_ffff_ffff * 0xffff_ffff && 0 <= s.hi * n <= 0xffff_ffff_ffff_ffff
            * 0xffff_ffff) by (nonlinear_arith)
            requires
                0 <= s.lo <= 0xffff_ffff_ffff_ffff,
                0 <= s.hi <= 0xffff_ffff_ffff_ffff,
                0 <= n <= 0xffff_ffff,
        ;
        assert(0 <= (s.lo * n) / (s.of as int)) by (nonlinear_arith)
            requires
                0 <= s.lo * n,
                0 < s.of,
        ;
    }
    let lo: u128 = (s.lo as u128) * (n as u128) / (s.of as u128);
    let first: u32 = if lo < (n - 1) as u128 { lo as u32 } else { n - 1 };
    let hi: u128 = ((s.hi as u128) * (n as u128) + (s.of as u128) - 1) / (s.of as u128);
    let end: u32 = if hi < first as u128 + 1 { first + 1 } else if hi > n as u128 { n } else { hi as u32 };
    (first, end - 1)
}

/// What is set in a plane of truth values, as a plane of bits.
fn bits(values: &Vec<bool>) -> (r: BitPlane)
    ensures
        r.wf(),
        r@ == values@,
{
    let n: usize = values.len();
    let mut r: BitPlane = BitPlane::new(n);
    let mut i: usize = 0;
    while i < n
        invariant
            n == values@.len() == r@.len(),
            r.wf(),
            i <= n,
            forall|k: int| 0 <= k < i ==> #[trigger] r@[k] == values@[k],
        decreases n - i,
    {
        r.set(i, values[i]);
        i += 1;
    }
    assert(r@ =~= values@);
    r
}

/// A connected piece.
pub struct Component {
    pub area: u64,
    pub bbox: Rect,
    /// The sums of its colours.
    pub sum: [u64; 3],
}

/// The pixels of a set of places.
pub open spec fn pixels_at(w: int, places: Set<int>) -> Set<(int, int)> {
    Set::new(|p: (int, int)| 0 <= p.0 < w && 0 <= p.1 && places.contains(at(w, p.0, p.1)))
}

/// One channel over a set of places, 0 elsewhere.
pub open spec fn channel_over(image: &RgbaImage, places: Set<int>, k: int) -> Seq<int> {
    Seq::new(image@.len(), |i: int| if places.contains(i) { image@[i][k] as int } else { 0 })
}

/// The piece that holds `i`. Pieces are connected along sides, not corners: noise
/// that only touches at corners is not one piece.
pub open spec fn piece(w: int, far: Seq<bool>, i: int) -> Set<int> {
    component(w, false, far, i)
}

/// `i` is the first place that lies in a largest piece.
pub open spec fn in_largest(w: int, far: Seq<bool>, i: int) -> bool {
    &&& 0 <= i < far.len()
    &&& far[i]
    &&& forall|j: int| 0 <= j < far.len() && #[trigger] far[j] ==> piece(w, far, j).len() <= piece(w, far, i).len()
    &&& forall|j: int|
        0 <= j < i && #[trigger] far[j] ==> piece(w, far, j).len() < piece(w, far, i).len()
}

/// The component is the piece that holds `i`.
pub open spec fn measures(image: &RgbaImage, far: Seq<bool>, i: int, c: Component) -> bool {
    let p = piece(image.w() as int, far, i);
    &&& p.finite()
    &&& c.area == p.len()
    &&& box_of(pixels_at(image.w() as int, p), c.bbox)
    &&& forall|k: int| 0 <= k < 3 ==> #[trigger] c.sum[k] == sum(channel_over(image, p, k))
}

/// Measures a listed piece.
#[verifier::rlimit(40)]
fn measure(image: &RgbaImage, c: &Vec<usize>, Ghost(far): Ghost<Seq<bool>>) -> (r: Component)
    requires
        image.wf(),
        image@.len() <= 0xff_ffff_ffff_ffff,
        far.len() == image@.len(),
        is_component(image.w() as int, false, far, c@),
    ensures
        measures(image, far, c@[0] as int, r),
        rect_on(r.bbox, image.w() as int, image.h() as int),
        forall|k: int| 0 <= k < 3 ==> #[trigger] r.sum[k] <= 255 * r.area,
{
    let w: usize = image.width() as usize;
    let ghost (wi, hi) = (image.w() as int, image.h() as int);
    let ghost n = image@.len();
    let ghost all = piece(wi, far, c@[0] as int);
    let pixels: &[[u8; 4]] = image.pixels();
    let total: usize = pixels.len();
    let ghost mut seen = Set::<(int, int)>::empty();
    let ghost mut got = Set::<int>::empty();
    let mut bounds: Bounds = Bounds::new();
    let mut s0: u64 = 0;
    let mut s1: u64 = 0;
    let mut s2: u64 = 0;
    let mut k: usize = 0;
    proof {
        assert(c@.contains(c@[0]));
        lemma_component_list(wi, false, far, c@, c@[0] as int);
        assert(got == ints(c@).take(0).to_set()) by {
            assert(ints(c@).take(0).to_set() =~= Set::empty());
        }
        lemma_nothing(image, 0);
        lemma_nothing(image, 1);
        lemma_nothing(image, 2);
        crate::cutout::connect::lemma_distinct_below(ints(c@), n);
    }
    while k < c.len()
        invariant
            image.wf(),
            wi == w == image.w(),
            hi == image.h(),
            n == image@.len() == wi * hi,
            n <= 0xff_ffff_ffff_ffff,
            pixels@ == image@,
            total == n,
            c@.no_duplicates(),
            forall|j: int| 0 <= j < c@.len() ==> (#[trigger] c@[j]) < n,
            k <= c@.len() <= n,
            bounds.holds(seen),
            forall|p: (int, int)| #[trigger]
                seen.contains(p) <==> 0 <= p.0 < wi && 0 <= p.1 && got.contains(at(wi, p.0, p.1)),
            forall|i: int| #[trigger] got.contains(i) <==> exists|j: int| 0 <= j < k && #[trigger] c@[j] == i,
            s0 == sum(channel_over(image, got, 0)),
            s1 == sum(channel_over(image, got, 1)),
            s2 == sum(channel_over(image, got, 2)),
            s0 <= 255 * k,
            s1 <= 255 * k,
            s2 <= 255 * k,
        decreases c@.len() - k,
    {
        let i: usize = c[k];
        proof {
            lemma_small_place(wi, hi, i as int);
        }
        let x: u32 = (i % w) as u32;
        let y: u32 = (i / w) as u32;
        let p: [u8; 4] = pixels[i];
        bounds.insert(x, y, Ghost(seen));
        let ghost had = got;
        proof {
            if had.contains(i as int) {
                let j = choose|j: int| 0 <= j < k && #[trigger] c@[j] == i;
                assert(c@[j] == c@[k as int]);
            }
            lemma_one_more(image, had, i as int, 0);
            lemma_one_more(image, had, i as int, 1);
            lemma_one_more(image, had, i as int, 2);
            let before = seen;
            seen = before.insert((x as int, y as int));
            got = had.insert(i as int);
            assert forall|q: (int, int)| #[trigger]
                seen.contains(q) <==> 0 <= q.0 < wi && 0 <= q.1 && got.contains(at(wi, q.0, q.1)) by {
                if 0 <= q.0 < wi && 0 <= q.1 && at(wi, q.0, q.1) == i {
                    lemma_at_split(wi, q.0, q.1);
                }
            }
            assert forall|a: int| #[trigger] got.contains(a) <==> exists|j: int|
                0 <= j < k + 1 && #[trigger] c@[j] == a by {
                if had.contains(a) {
                    let j = choose|j: int| 0 <= j < k && #[trigger] c@[j] == a;
                    assert(c@[j] == a);
                }
                if a == i {
                    assert(c@[k as int] == a);
                }
            }
        }
        s0 = s0 + p[0] as u64;
        s1 = s1 + p[1] as u64;
        s2 = s2 + p[2] as u64;
        k += 1;
    }
    proof {
        assert forall|i: int| got.contains(i) <==> all.contains(i) by {
            if got.contains(i) {
                let j = choose|j: int| 0 <= j < k && #[trigger] c@[j] == i;
                assert(ints(c@)[j] == i);
            }
            if all.contains(i) {
                let j = choose|j: int| 0 <= j < ints(c@).len() && ints(c@)[j] == i;
                assert(c@[j] == i);
            }
        }
        assert(got =~= all);
        assert(seen =~= pixels_at(wi, all));
        lemma_small_place(wi, hi, c@[0] as int);
        assert(seen.contains((c@[0] as int % wi, c@[0] as int / wi)));
    }
    let found: Option<Rect> = bounds.finish(Ghost(seen));
    let bbox: Rect = match found {
        Some(b) => b,
        None => (0, 0, 0, 0),
    };
    proof {
        let p = choose|p: (int, int)| #[trigger] seen.contains(p) && p.0 == bbox.2;
        let q = choose|q: (int, int)| #[trigger] seen.contains(q) && q.1 == bbox.3;
        assert(in_rect(bbox, p.0, p.1));
        let j = at(wi, q.0, q.1);
        assert(all.contains(j));
        let l = choose|l: int| 0 <= l < k && #[trigger] c@[l] == j;
        lemma_small_place(wi, hi, j);
        lemma_at_split(wi, q.0, q.1);
    }
    Component { area: c.len() as u64, bbox, sum: [s0, s1, s2] }
}

/// Over no place the sum is nothing.
proof fn lemma_nothing(image: &RgbaImage, k: int)
    ensures
        sum(channel_over(image, Set::empty(), k)) == 0,
{
    lemma_sum_flat(channel_over(image, Set::empty(), k), 0);
}

/// One more place adds its value.
proof fn lemma_one_more(image: &RgbaImage, places: Set<int>, i: int, k: int)
    requires
        0 <= i < image@.len(),
        !places.contains(i),
    ensures
        sum(channel_over(image, places.insert(i), k)) == sum(channel_over(image, places, k)) + image@[i][k],
{
    let s = channel_over(image, places, k);
    lemma_sum_update(s, i, image@[i][k] as int);
    assert(channel_over(image, places.insert(i), k) =~= s.update(i, image@[i][k] as int));
}

/// The largest piece; of several the first.
pub fn largest_component(image: &RgbaImage, far: &Vec<bool>) -> (r: Option<Component>)
    requires
        image.wf(),
        image@.len() <= 0xff_ffff_ffff_ffff,
        far@.len() == image@.len(),
    ensures
        r is None <==> forall|i: int| 0 <= i < far@.len() ==> !(#[trigger] far@[i]),
        r matches Some(c) ==> {
            &&& exists|i: int| #[trigger] in_largest(image.w() as int, far@, i) && measures(image, far@, i, c)
            &&& rect_on(c.bbox, image.w() as int, image.h() as int)
            &&& 0 < c.area <= far@.len()
            &&& forall|k: int| 0 <= k < 3 ==> #[trigger] c.sum[k] <= 255 * c.area
        },
{
    let w: usize = image.width() as usize;
    let h: usize = image.height() as usize;
    let ghost wi = w as int;
    let open: BitPlane = bits(far);
    let pieces: Vec<Vec<usize>> = components(w, h, &open, false);
    if pieces.len() == 0 {
        proof {
            assert forall|i: int| 0 <= i < far@.len() implies !(#[trigger] far@[i]) by {
                if far@[i] {
                    assert(open@[i]);
                }
            }
        }
        return None;
    }
    let mut best: usize = 0;
    let mut k: usize = 1;
    while k < pieces.len()
        invariant
            best < k <= pieces@.len(),
            forall|j: int| 0 <= j < k ==> (#[trigger] pieces@[j])@.len() <= pieces@[best as int]@.len(),
            forall|j: int| 0 <= j < best ==> (#[trigger] pieces@[j])@.len() < pieces@[best as int]@.len(),
        decreases pieces@.len() - k,
    {
        if pieces[k].len() > pieces[best].len() {
            best = k;
        }
        k += 1;
    }
    let found: &Vec<usize> = &pieces[best];
    let ghost a = found@[0] as int;
    proof {
        assert(is_component(wi, false, far@, pieces@[best as int]@));
        assert(found@.contains(found@[0]));
        lemma_component_list(wi, false, far@, found@, a);
        assert forall|j: int| 0 <= j < far@.len() && #[trigger] far@[j] implies piece(wi, far@, j).len() <= piece(
            wi,
            far@,
            a,
        ).len() && (j < a ==> piece(wi, far@, j).len() < piece(wi, far@, a).len()) by {
            assert(open@[j]);
            let k = choose|k: int| 0 <= k < pieces@.len() && (#[trigger] pieces@[k])@.contains(j as usize);
            let c = pieces@[k]@;
            assert(is_component(wi, false, far@, pieces@[k]@));
            lemma_component_list(wi, false, far@, c, j);
            if j < a {
                let l = choose|l: int| 0 <= l < c.len() && c[l] == j as usize;
                assert(c[0] <= c[l]);
                if k > best {
                    assert(pieces@[best as int]@[0] < pieces@[k]@[0]);
                }
                assert(k != best);
            }
        }
        assert(in_largest(wi, far@, a));
        crate::cutout::connect::lemma_distinct_below(ints(found@), far@.len());
    }
    let c: Component = measure(image, found, Ghost(far@));
    proof {
        assert(exists|i: int| 0 <= i < far@.len() && #[trigger] far@[i]) by {
            assert(far@[a]);
        }
    }
    Some(c)
}

/// The pixels that are farther from the background than the threshold. A pixel
/// without alpha has no colour.
pub open spec fn far_plane(image: &RgbaImage, delta: Seq<u64>, threshold: u64) -> Seq<bool> {
    Seq::new(image@.len(), |i: int| image@[i][3] >= SUBJECT_ALPHA && delta[i] > threshold)
}

/// The same outside a rectangle.
pub open spec fn outside_plane(image: &RgbaImage, delta: Seq<u64>, threshold: u64, r: Rect) -> Seq<bool> {
    let w = image.w() as int;
    Seq::new(
        image@.len(),
        |i: int| far_plane(image, delta, threshold)[i] && !in_rect(r, i % w, i / w),
    )
}

fn far_values(image: &RgbaImage, delta: &[u64], threshold: u64) -> (r: (Vec<bool>, u64))
    requires
        image.wf(),
        delta@.len() == image@.len(),
        image@.len() <= 0xff_ffff_ffff_ffff,
    ensures
        r.0@ == far_plane(image, delta@, threshold),
        r.1 == tally(r.0@),
{
    let pixels: &[[u8; 4]] = image.pixels();
    let n: usize = pixels.len();
    let ghost s = far_plane(image, delta@, threshold);
    let mut r: Vec<bool> = Vec::with_capacity(n);
    let mut count: u64 = 0;
    let mut i: usize = 0;
    while i < n
        invariant
            pixels@ == image@,
            n == image@.len() == delta@.len(),
            n <= 0xff_ffff_ffff_ffff,
            s == far_plane(image, delta@, threshold),
            i <= n,
            r@ == s.take(i as int),
            count == tally(s.take(i as int)),
            count <= i,
        decreases n - i,
    {
        let v: bool = pixels[i][3] >= SUBJECT_ALPHA && delta[i] > threshold;
        proof {
            lemma_tally_step(s, i as int);
            assert(s.take(i + 1) =~= s.take(i as int).push(v));
        }
        r.push(v);
        if v {
            count += 1;
        }
        i += 1;
    }
    assert(s.take(n as int) =~= s);
    (r, count)
}

/// The size of the largest piece left outside a rectangle. The threshold is that
/// of an ordinary background pixel, not that by which the product was found: if
/// the product has spoilt the one, it must not hide behind it.
pub open spec fn is_leftover(image: &RgbaImage, outside: Seq<bool>, v: int) -> bool {
    if forall|i: int| 0 <= i < outside.len() ==> !(#[trigger] outside[i]) {
        v == 0
    } else {
        exists|i: int| #[trigger]
            in_largest(image.w() as int, outside, i) && v == piece(image.w() as int, outside, i).len()
    }
}

pub fn leftover_outside(image: &RgbaImage, delta: &[u64], threshold: u64, rect: Rect) -> (r: u64)
    requires
        image.wf(),
        delta@.len() == image@.len(),
        image@.len() <= 0xff_ffff_ffff_ffff,
    ensures
        is_leftover(image, outside_plane(image, delta@, threshold, rect), r as int),
        r <= image@.len(),
{
    let w: usize = image.width() as usize;
    let (far, _count): (Vec<bool>, u64) = far_values(image, delta, threshold);
    let ghost (wi, hi) = (image.w() as int, image.h() as int);
    let ghost s = outside_plane(image, delta@, threshold, rect);
    let n: usize = far.len();
    let mut outside: Vec<bool> = Vec::with_capacity(n);
    let mut i: usize = 0;
    while i < n
        invariant
            image.wf(),
            wi == w == image.w(),
            hi == image.h(),
            n == image@.len() == far@.len() == wi * hi,
            far@ == far_plane(image, delta@, threshold),
            s == outside_plane(image, delta@, threshold, rect),
            i <= n,
            outside@.len() == i,
            forall|k: int| 0 <= k < i ==> #[trigger] outside@[k] == s[k],
        decreases n - i,
    {
        proof {
            lemma_small_place(wi, hi, i as int);
        }
        let x: u32 = (i % w) as u32;
        let y: u32 = (i / w) as u32;
        let inside: bool = rect.0 <= x && x <= rect.2 && rect.1 <= y && y <= rect.3;
        outside.push(far[i] && !inside);
        i += 1;
    }
    assert(outside@ =~= s);
    match largest_component(image, &outside) {
        Some(c) => c.area,
        None => 0,
    }
}

impl SubjectHint {
    /// Why the answer is not trusted, if it is not.
    pub fn low_reason(&self) -> (r: Option<LowReason>)
        requires
            self.area < 0x100_0000_0000_0000,
            self.far < 0x100_0000_0000_0000,
        ensures
            r is None <==> self.confidence == Confidence::High,
            r == Some(LowReason::AreaTooSmall) <==> self.confidence == Confidence::Low && !large_enough(
                self.area as int,
                self.pixels as int,
            ),
            r == Some(LowReason::NotOneBlob) <==> self.confidence == Confidence::Low && large_enough(
                self.area as int,
                self.pixels as int,
            ) && !one_blob(self.area as int, self.far as int),
    {
        if self.confidence.is_high() {
            None
        } else if 20 * self.area < self.pixels {
            Some(LowReason::AreaTooSmall)
        } else if 10 * self.area < 7 * self.far {
            Some(LowReason::NotOneBlob)
        } else {
            Some(LowReason::LeftoverOutside)
        }
    }
}

/// The stricter of a measured distance and the distance within which colours
/// count as the same.
pub open spec fn at_least(measured: u64, same: u64) -> u64 {
    if measured < same {
        same
    } else {
        measured
    }
}

/// The hint is what the measured image says.
pub open spec fn hints(
    image: &RgbaImage,
    full: (u32, u32),
    delta: Seq<u64>,
    p50: u64,
    p90: u64,
    i: int,
    c: Component,
    hint: SubjectHint,
) -> bool {
    let far = far_plane(image, delta, at_least(p90, UNIFORM_DELTA_E));
    let (w, h) = (image.w(), image.h());
    let across = widened(Span { lo: c.bbox.0 as u64, hi: (c.bbox.2 + 1) as u64, of: w as u64 });
    let down = widened(Span { lo: c.bbox.1 as u64, hi: (c.bbox.3 + 1) as u64, of: h as u64 });
    &&& in_largest(w as int, far, i)
    &&& measures(image, far, i, c)
    &&& hint.across == across
    &&& hint.down == down
    &&& hint.bbox.0 == pixels_of(across, full.0).0
    &&& hint.bbox.1 == pixels_of(down, full.1).0
    &&& hint.bbox.2 == pixels_of(across, full.0).1
    &&& hint.bbox.3 == pixels_of(down, full.1).1
    &&& hint.area == c.area
    &&& hint.pixels == image@.len()
    &&& hint.far == tally(far)
    &&& is_leftover(image, outside_plane(image, delta, at_least(p50, UNIFORM_DELTA_E), c.bbox), hint.leftover as int)
    &&& forall|k: int| 0 <= k < 3 ==> #[trigger] hint.mean[k] == c.sum[k] as int / c.area as int
    &&& hint.touches_edge <==> c.bbox.0 == 0 || c.bbox.1 == 0 || c.bbox.2 + 1 == w || c.bbox.3 + 1 == h
    &&& hint.confidence == Confidence::High <==> large_enough(hint.area as int, hint.pixels as int) && one_blob(
        hint.area as int,
        hint.far as int,
    ) && little_left(hint.leftover as int, hint.pixels as int)
}

/// A mean of bytes.
fn byte_mean(total: u64, n: u64) -> (r: u8)
    requires
        0 < n,
        total <= 255 * n,
    ensures
        r == total as int / n as int,
{
    proof {
        assert(total / n <= 255) by (nonlinear_arith)
            requires
                0 < n,
                total <= 255 * n,
        ;
    }
    (total / n) as u8
}

/// Finds the product on a measured copy of an image. `delta` tells how far each
/// of its pixels is from the background; `p50` and `p90` how far the border of
/// the full image is.
/// Without a pixel that is far there is no product.
pub fn detect_subject(
    image: &RgbaImage,
    full: (u32, u32),
    delta: &[u64],
    p50: u64,
    p90: u64,
) -> (r: Option<SubjectHint>)
    requires
        image.wf(),
        image.w() <= MEASURE_LONG_EDGE,
        image.h() <= MEASURE_LONG_EDGE,
        delta@.len() == image@.len(),
    ensures
        r is None <==> full.0 == 0 || full.1 == 0 || forall|i: int|
            0 <= i < image@.len() ==> !(#[trigger] far_plane(image, delta@, at_least(p90, UNIFORM_DELTA_E))[i]),
        r matches Some(hint) ==> exists|i: int, c: Component| #[trigger]
            hints(image, full, delta@, p50, p90, i, c, hint),
{
    if full.0 == 0 || full.1 == 0 {
        return None;
    }
    let w: u32 = image.width();
    let h: u32 = image.height();
    proof {
        assert(w * h <= 62_500) by (nonlinear_arith)
            requires
                0 <= w <= 250,
                0 <= h <= 250,
        ;
    }
    let pixels: u64 = image.pixels().len() as u64;
    let found: u64 = if p90 < UNIFORM_DELTA_E { UNIFORM_DELTA_E } else { p90 };
    let check: u64 = if p50 < UNIFORM_DELTA_E { UNIFORM_DELTA_E } else { p50 };
    let (far, count): (Vec<bool>, u64) = far_values(image, delta, found);
    match largest_component(image, &far) {
        None => None,
        Some(c) => {
            let ghost i = choose|i: int| #[trigger]
                in_largest(w as int, far@, i) && measures(image, far@, i, c);
            let across: Span = expand(Span { lo: c.bbox.0 as u64, hi: c.bbox.2 as u64 + 1, of: w as u64 });
            let down: Span = expand(Span { lo: c.bbox.1 as u64, hi: c.bbox.3 as u64 + 1, of: h as u64 });
            let (x1, x2): (u32, u32) = to_pixels(across, full.0);
            let (y1, y2): (u32, u32) = to_pixels(down, full.1);
            let leftover: u64 = leftover_outside(image, delta, check, c.bbox);
            let touches_edge: bool = c.bbox.0 == 0 || c.bbox.1 == 0 || c.bbox.2 + 1 == w || c.bbox.3 + 1 == h;
            proof {
                crate::tally::lemma_tally_bound(far@);
            }
            let high: bool = 20 * c.area >= pixels && 10 * c.area >= 7 * count && 20 * leftover < 3 * pixels;
            assert(c.sum[0] <= 255 * c.area && c.sum[1] <= 255 * c.area && c.sum[2] <= 255 * c.area);
            let hint: SubjectHint = SubjectHint {
                bbox: (x1, y1, x2, y2),
                across,
                down,
                area: c.area,
                pixels,
                far: count,
                leftover,
                mean: [byte_mean(c.sum[0], c.area), byte_mean(c.sum[1], c.area), byte_mean(c.sum[2], c.area)],
                touches_edge,
                confidence: if high { Confidence::High } else { Confidence::Low },
            };
            assert(hints(image, full, delta@, p50, p90, i, c, hint));
            Some(hint)
        },
    }
}

} // verus!

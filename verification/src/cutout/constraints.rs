//! Spatial instructions: which pixels are foreground or background whatever
//! their colour.
//!
//! Trimaps, mask images, polygons and seeds all say nothing but "this pixel is
//! foreground" or "this pixel is background", so they share one table. The two
//! are separate marks: a pixel that carries both is a conflict, which the table
//! can hold and report instead of silently taking a side.
use vstd::prelude::*;

use crate::geometry::{
    at, box_of_any, lemma_at_bound, lemma_at_join, lemma_at_split, lemma_row_before, on_plane, place, Bounds, Rect,
};
use crate::tally::{lemma_ones_skip, lemma_tally_bound, lemma_tally_step, lemma_tally_zero, lists, ones, tally};

verus! {

/// What is said of one pixel.
#[derive(Debug, Clone, Copy, PartialEq, Eq, Structural)]
pub enum Constraint {
    /// Nothing; the unknown band of a trimap is this too.
    Free,
    /// Foreground whatever its colour. Stronger than a box and than background.
    ForcedFg,
    /// Background whatever its colour, and a seed of the fill.
    ForcedBg,
}

/// The luminance from which on a trimap means foreground.
pub const TRIMAP_FOREGROUND: u8 = 192;

/// The luminance up to which a trimap means background. Between the two it
/// says nothing.
pub const TRIMAP_BACKGROUND: u8 = 63;

/// The luminance from which on a mask image is an instruction. Anything above 0
/// would pick up the ringing of lossy formats.
pub const MASK_THRESHOLD: u8 = 128;

const FG: u8 = 1;

const BG: u8 = 2;

/// Where a constraint came from.
#[derive(Debug, Clone, Copy, PartialEq, Eq, Structural)]
pub enum ConstraintSource {
    Trimap,
    FgMask,
    BgMask,
    FgPolygon,
    BgPolygon,
    FgSeed,
}

impl ConstraintSource {
    pub open spec fn text(self) -> Seq<char> {
        match self {
            ConstraintSource::Trimap => "trimap"@,
            ConstraintSource::FgMask => "fg_mask"@,
            ConstraintSource::BgMask => "bg_mask"@,
            ConstraintSource::FgPolygon => "fg_polygon"@,
            ConstraintSource::BgPolygon => "bg_polygon"@,
            ConstraintSource::FgSeed => "fg_seed"@,
        }
    }

    /// The name used in reports.
    pub fn as_str(self) -> (r: &'static str)
        ensures
            r@ == self.text(),
    {
        match self {
            ConstraintSource::Trimap => "trimap",
            ConstraintSource::FgMask => "fg_mask",
            ConstraintSource::BgMask => "bg_mask",
            ConstraintSource::FgPolygon => "fg_polygon",
            ConstraintSource::BgPolygon => "bg_polygon",
            ConstraintSource::FgSeed => "fg_seed",
        }
    }
}

/// What a brightness says in a trimap. In between nothing is said.
pub open spec fn trimap_says(l: u8) -> Option<Constraint> {
    if l >= TRIMAP_FOREGROUND {
        Some(Constraint::ForcedFg)
    } else if l <= TRIMAP_BACKGROUND {
        Some(Constraint::ForcedBg)
    } else {
        None
    }
}

pub fn by_trimap(l: u8) -> (r: Option<Constraint>)
    ensures
        r == trimap_says(l),
{
    if l >= TRIMAP_FOREGROUND {
        Some(Constraint::ForcedFg)
    } else if l <= TRIMAP_BACKGROUND {
        Some(Constraint::ForcedBg)
    } else {
        None
    }
}

/// Whether a brightness marks a pixel in a mask. The middle is the limit, so that
/// the ringing of a lossy format marks nothing.
pub fn by_mask(l: u8) -> (r: bool)
    ensures
        r == (l >= MASK_THRESHOLD),
{
    l >= MASK_THRESHOLD
}

/// The pixels that are marked as foreground and as background at once.
#[derive(Debug, Clone, Copy, PartialEq, Eq)]
pub struct Conflict {
    pub count: u64,
    /// Their bounding box, which says where to mend.
    pub bbox: Rect,
}

/// The marks of every pixel, and the sources they came from.
#[derive(Debug, PartialEq, Eq)]
pub struct Constraints {
    width: u32,
    height: u32,
    flags: Vec<u8>,
    sources: Vec<ConstraintSource>,
}

proof fn lemma_flags(f: u8)
    by (bit_vector)
    requires
        f <= 3,
    ensures
        f | 1 <= 3,
        f | 2 <= 3,
        (f | 1) & 1 != 0,
        ((f | 1) & 2 != 0) == (f & 2 != 0),
        (f | 2) & 2 != 0,
        ((f | 2) & 1 != 0) == (f & 1 != 0),
        f == 0 <==> (f & 1 == 0 && f & 2 == 0),
{
}

proof fn lemma_no_flag()
    by (bit_vector)
    ensures
        0u8 & 1 == 0,
        0u8 & 2 == 0,
{
}

/// The pixel of a side of `to` pixels in which the middle of pixel `v` of a side
/// of `from` pixels lies.
pub open spec fn nearest_on(v: u32, from: u32, to: u32) -> int {
    let p = ((2 * v + 1) * to) / (2 * from as int);
    if p < to - 1 {
        p
    } else {
        to - 1
    }
}

/// Where pixel `v` of one side lies on another.
pub fn nearest(v: u32, from: u32, to: u32) -> (r: u32)
    requires
        0 < from,
        0 < to,
    ensures
        r == nearest_on(v, from, to),
        r < to,
{
    proof {
        assert(0 <= (2 * v + 1) * to <= 0x1_ffff_ffff * 0xffff_ffff) by (nonlinear_arith)
            requires
                0 <= v <= 0xffff_ffff,
                0 <= to <= 0xffff_ffff,
        ;
        assert(0 <= ((2 * v + 1) * to) / (2 * from as int)) by (nonlinear_arith)
            requires
                0 <= (2 * v + 1) * to,
                0 < from,
        ;
    }
    let p: u128 = (2 * (v as u128) + 1) * (to as u128) / (2 * (from as u128));
    if p < (to - 1) as u128 {
        p as u32
    } else {
        to - 1
    }
}

/// The place in a table of size `from` that is nearest to place `i` of another.
pub open spec fn nearest_place(from: (u32, u32), size: (u32, u32), i: int) -> int {
    at(
        from.0 as int,
        nearest_on((i % size.0 as int) as u32, size.0, from.0),
        nearest_on((i / size.0 as int) as u32, size.1, from.1),
    )
}

/// `f` is copied from a place.
spec fn is_copied(flags: Seq<u8>, p: int, f: u8) -> bool {
    0 <= p < flags.len() && f == flags[p]
}

/// `to` carries at each pixel the marks of the nearest pixel of `from`.
pub open spec fn resamples(from: &Constraints, size: (u32, u32), to: &Constraints) -> bool {
    &&& to.wf()
    &&& to.w() == size.0
    &&& to.h() == size.1
    &&& to.listed() == from.listed()
    &&& forall|i: int|
        0 <= i < size.0 * size.1 ==> #[trigger] to.fg()[i] == from.fg()[nearest_place((from.w(), from.h()), size, i)]
            && to.bg()[i] == from.bg()[nearest_place((from.w(), from.h()), size, i)]
}

/// The kind as marks of foreground and background.
pub open spec fn says_fg(kind: Constraint) -> bool {
    kind == Constraint::ForcedFg
}

pub open spec fn says_bg(kind: Constraint) -> bool {
    kind == Constraint::ForcedBg
}

/// `after` carries the marks of `before` and, over `area`, those of `kind`.
pub open spec fn painted(before: &Constraints, after: &Constraints, kind: Constraint, area: Seq<bool>) -> bool {
    &&& after.wf()
    &&& after.w() == before.w()
    &&& after.h() == before.h()
    &&& after.listed() == before.listed()
    &&& after.fg() == Seq::new(before.fg().len(), |i: int| before.fg()[i] || (says_fg(kind) && area[i]))
    &&& after.bg() == Seq::new(before.bg().len(), |i: int| before.bg()[i] || (says_bg(kind) && area[i]))
}

/// Pixel `(x, y)` is at most `radius` away from the centre.
pub open spec fn in_disc(cx: int, cy: int, radius: int, x: int, y: int) -> bool {
    (x - cx) * (x - cx) + (y - cy) * (y - cy) <= radius * radius
}

/// The disc as a plane. A centre outside the image gives no disc at all.
pub open spec fn disc(width: u32, height: u32, cx: u32, cy: u32, radius: u32) -> Seq<bool> {
    Seq::new(
        (width * height) as nat,
        |i: int|
            cx < width && cy < height && in_disc(
                cx as int,
                cy as int,
                radius as int,
                i % (width as int),
                i / (width as int),
            ),
    )
}

/// The places of the disc in ascending order.
pub(crate) fn disc_pixels(width: u32, height: u32, cx: u32, cy: u32, radius: u32) -> (r: Vec<usize>)
    requires
        width * height <= usize::MAX,
    ensures
        lists(r@, disc(width, height, cx, cy, radius)),
{
    let ghost area = disc(width, height, cx, cy, radius);
    let ghost (w, h) = (width as int, height as int);
    assert(0 <= width * height) by (nonlinear_arith);
    let mut r: Vec<usize> = Vec::new();
    assert(r@.map_values(|v: usize| v as int) =~= Seq::empty());
    assert(area.take(0) =~= Seq::empty());
    if cx >= width || cy >= height {
        proof {
            lemma_ones_skip(area, 0, area.len() as int);
            assert(area.take(area.len() as int) =~= area);
        }
        return r;
    }
    let x0: u32 = if cx < radius { 0 } else { cx - radius };
    let y0: u32 = if cy < radius { 0 } else { cy - radius };
    let x1: u32 = if radius < width - cx { cx + radius } else { width - 1 };
    let y1: u32 = if radius < height - cy { cy + radius } else { height - 1 };
    let reach: u128 = square(radius);
    let ghost mut done: int = 0;
    let mut y: u32 = y0;
    proof {
        lemma_at_bound(w, h, 0, y as int);
        assert forall|i: int| 0 <= i < at(w, 0, y as int) implies !(#[trigger] area[i]) by {
            lemma_row_before(w, i, y as int);
            lemma_outside_square(cx as int, cy as int, radius as int, i % w, i / w);
        }
    }
    while y <= y1
        invariant
            w == width,
            h == height,
            area.len() == width * height <= usize::MAX,
            cx < width,
            cy < height,
            area == disc(width, height, cx, cy, radius),
            x0 == if cx < radius { 0 } else { cx - radius },
            y0 == if cy < radius { 0 } else { cy - radius },
            x1 == if radius < width - cx { cx + radius } else { width - 1 },
            y1 == if radius < height - cy { cy + radius } else { height - 1 },
            reach == radius * radius,
            y0 <= y <= y1 + 1,
            0 <= done <= area.len(),
            done <= at(w, 0, y as int),
            forall|i: int| done <= i < at(w, 0, y as int) && i < area.len() ==> !(#[trigger] area[i]),
            lists(r@, area.take(done)),
        decreases y1 + 1 - y,
    {
        let mut x: u32 = x0;
        proof {
            lemma_at_bound(w, h, x0 as int, y as int);
            assert forall|i: int| done <= i < at(w, x0 as int, y as int) implies !(#[trigger] area[i]) by {
                if i >= at(w, 0, y as int) {
                    lemma_at_split(w, i - y * w, y as int);
                    lemma_outside_square(cx as int, cy as int, radius as int, i % w, i / w);
                }
            }
        }
        while x <= x1
            invariant
                w == width,
                h == height,
                area.len() == width * height <= usize::MAX,
                cx < width,
                cy < height,
                area == disc(width, height, cx, cy, radius),
                x0 == if cx < radius { 0 } else { cx - radius },
                x1 == if radius < width - cx { cx + radius } else { width - 1 },
                y < height,
                reach == radius * radius,
                x0 <= x <= x1 + 1,
                x1 < width,
                0 <= done <= area.len(),
                done <= at(w, x as int, y as int) <= area.len(),
                forall|i: int| done <= i < at(w, x as int, y as int) ==> !(#[trigger] area[i]),
                lists(r@, area.take(done)),
            decreases x1 + 1 - x,
        {
            let dx: u32 = if x < cx { cx - x } else { x - cx };
            let dy: u32 = if y < cy { cy - y } else { y - cy };
            proof {
                lemma_at_bound(w, h, x as int, y as int);
                lemma_at_split(w, x as int, y as int);
                assert(dx * dx == (x - cx) * (x - cx)) by (nonlinear_arith)
                    requires
                        dx == x - cx || dx == cx - x,
                ;
                assert(dy * dy == (y - cy) * (y - cy)) by (nonlinear_arith)
                    requires
                        dy == y - cy || dy == cy - y,
                ;
            }
            let i: usize = place(width as usize, x as usize, y as usize, Ghost(h));
            if square(dx) + square(dy) <= reach {
                let ghost had = r@;
                r.push(i);
                proof {
                    assert(area[i as int]);
                    lemma_ones_skip(area, done, i as int);
                    lemma_tally_step(area, i as int);
                    assert(r@.map_values(|v: usize| v as int) =~= had.map_values(|v: usize| v as int).push(i as int));
                    done = i + 1;
                }
            } else {
                assert(!area[i as int]);
            }
            x += 1;
        }
        proof {
            lemma_at_bound(w, h, w - 1, y as int);
            assert(at(w, 0, y + 1) == at(w, w - 1, y as int) + 1) by (nonlinear_arith)
                requires
                    at(w, 0, y + 1) == (y + 1) * w,
                    at(w, w - 1, y as int) == y * w + w - 1,
            ;
            assert forall|i: int| done <= i < at(w, 0, y + 1) implies !(#[trigger] area[i]) by {
                if i >= at(w, x as int, y as int) {
                    lemma_at_split(w, i - y * w, y as int);
                    lemma_outside_square(cx as int, cy as int, radius as int, i % w, i / w);
                }
            }
        }
        y += 1;
    }
    proof {
        assert forall|i: int| done <= i < area.len() implies !(#[trigger] area[i]) by {
            if i >= at(w, 0, y as int) {
                lemma_at_join(w, h, i);
                lemma_row_before(w, i, y as int);
                lemma_outside_square(cx as int, cy as int, radius as int, i % w, i / w);
            }
        }
        lemma_ones_skip(area, done, area.len() as int);
        assert(area.take(area.len() as int) =~= area);
    }
    r
}

/// A disc lies within the square around it.
proof fn lemma_outside_square(cx: int, cy: int, radius: int, x: int, y: int)
    requires
        0 <= radius,
        x < cx - radius || cx + radius < x || y < cy - radius || cy + radius < y,
    ensures
        !in_disc(cx, cy, radius, x, y),
{
    let (dx, dy) = (x - cx, y - cy);
    assert(dx * dx >= 0 && dy * dy >= 0) by (nonlinear_arith);
    if dx < -radius || radius < dx {
        assert(dx * dx > radius * radius) by (nonlinear_arith)
            requires
                0 <= radius,
                dx < -radius || radius < dx,
        ;
    } else {
        assert(dy * dy > radius * radius) by (nonlinear_arith)
            requires
                0 <= radius,
                dy < -radius || radius < dy,
        ;
    }
}

fn square(v: u32) -> (r: u128)
    ensures
        r == v * v,
        r <= u32::MAX * u32::MAX,
{
    assert(v * v <= u32::MAX * u32::MAX) by (nonlinear_arith)
        requires
            v <= u32::MAX,
    ;
    (v as u128) * (v as u128)
}

impl Constraints {
    pub closed spec fn w(&self) -> u32 {
        self.width
    }

    pub closed spec fn h(&self) -> u32 {
        self.height
    }

    /// The pixels marked as foreground.
    pub closed spec fn fg(&self) -> Seq<bool> {
        self.flags@.map_values(|f: u8| f & FG != 0)
    }

    /// The pixels marked as background.
    pub closed spec fn bg(&self) -> Seq<bool> {
        self.flags@.map_values(|f: u8| f & BG != 0)
    }

    /// The sources, in the order they were noted.
    pub closed spec fn listed(&self) -> Seq<ConstraintSource> {
        self.sources@
    }

    /// No other mark is in use.
    pub closed spec fn flags_ok(&self) -> bool {
        forall|i: int| 0 <= i < self.flags@.len() ==> #[trigger] self.flags@[i] <= 3
    }

    /// There is one pair of marks for each pixel, and no source is listed twice.
    pub open spec fn wf(&self) -> bool {
        &&& self.fg().len() == self.w() * self.h() <= usize::MAX
        &&& self.bg().len() == self.fg().len()
        &&& self.listed().no_duplicates()
        &&& self.flags_ok()
    }

    /// The pixels that carry both marks.
    pub open spec fn both(&self) -> Seq<bool> {
        Seq::new(self.fg().len(), |i: int| self.fg()[i] && self.bg()[i])
    }

    /// The pixels that carry no mark.
    pub open spec fn free(&self) -> Seq<bool> {
        Seq::new(self.fg().len(), |i: int| !self.fg()[i] && !self.bg()[i])
    }

    /// A table without marks.
    pub fn new(width: u32, height: u32) -> (r: Self)
        requires
            width * height <= usize::MAX,
        ensures
            r.wf(),
            r.w() == width,
            r.h() == height,
            r.fg() == Seq::new((width * height) as nat, |i: int| false),
            r.bg() == Seq::new((width * height) as nat, |i: int| false),
            r.listed() == Seq::<ConstraintSource>::empty(),
    {
        let n: usize = (width as usize) * (height as usize);
        let flags: Vec<u8> = vec![0u8; n];
        let r: Constraints = Constraints { width, height, flags, sources: Vec::new() };
        proof {
            lemma_no_flag();
            assert(r.fg() =~= Seq::new((width * height) as nat, |i: int| false));
            assert(r.bg() =~= Seq::new((width * height) as nat, |i: int| false));
        }
        r
    }

    pub fn width(&self) -> (r: u32)
        ensures
            r == self.w(),
    {
        self.width
    }

    pub fn height(&self) -> (r: u32)
        ensures
            r == self.h(),
    {
        self.height
    }

    /// Records a source that took effect. Each is listed once, in the order given.
    pub fn note(&mut self, source: ConstraintSource)
        requires
            old(self).wf(),
        ensures
            final(self).wf(),
            final(self).w() == old(self).w(),
            final(self).h() == old(self).h(),
            final(self).fg() == old(self).fg(),
            final(self).bg() == old(self).bg(),
            final(self).listed() == if old(self).listed().contains(source) {
                old(self).listed()
            } else {
                old(self).listed().push(source)
            },
    {
        let mut i: usize = 0;
        while i < self.sources.len()
            invariant
                *self == *old(self),
                self.wf(),
                i <= self.sources@.len(),
                forall|k: int| 0 <= k < i ==> self.sources@[k] != source,
            decreases self.sources@.len() - i,
        {
            if self.sources[i] == source {
                return;
            }
            i += 1;
        }
        self.sources.push(source);
    }

    pub fn sources(&self) -> (r: &[ConstraintSource])
        ensures
            r@ == self.listed(),
    {
        self.sources.as_slice()
    }

    /// Whether no pixel carries a mark.
    pub fn is_empty(&self) -> (r: bool)
        requires
            self.wf(),
        ensures
            r <==> forall|i: int| 0 <= i < self.fg().len() ==> !self.fg()[i] && !self.bg()[i],
    {
        let mut i: usize = 0;
        while i < self.flags.len()
            invariant
                self.wf(),
                i <= self.flags@.len(),
                forall|k: int| 0 <= k < i ==> !self.fg()[k] && !self.bg()[k],
            decreases self.flags@.len() - i,
        {
            proof {
                lemma_flags(self.flags@[i as int]);
            }
            if self.flags[i] != 0 {
                assert(self.fg()[i as int] || self.bg()[i as int]);
                return false;
            }
            i += 1;
        }
        true
    }

    fn index(&self, x: u32, y: u32) -> (i: usize)
        requires
            self.wf(),
            on_plane(self.w() as int, self.h() as int, x as int, y as int),
        ensures
            i == at(self.w() as int, x as int, y as int),
            i < self.fg().len(),
    {
        place(self.width as usize, x as usize, y as usize, Ghost(self.height as int))
    }

    pub fn has_fg(&self, index: usize) -> (r: bool)
        requires
            self.wf(),
            index < self.fg().len(),
        ensures
            r == self.fg()[index as int],
    {
        self.flags[index] & FG != 0
    }

    pub fn has_bg(&self, index: usize) -> (r: bool)
        requires
            self.wf(),
            index < self.fg().len(),
        ensures
            r == self.bg()[index as int],
    {
        self.flags[index] & BG != 0
    }

    /// What holds at a pixel: foreground goes before background, and outside the
    /// image nothing is said.
    pub open spec fn said_at(&self, x: int, y: int) -> Constraint {
        let i = at(self.w() as int, x, y);
        if !on_plane(self.w() as int, self.h() as int, x, y) {
            Constraint::Free
        } else if self.fg()[i] {
            Constraint::ForcedFg
        } else if self.bg()[i] {
            Constraint::ForcedBg
        } else {
            Constraint::Free
        }
    }

    pub fn at(&self, x: u32, y: u32) -> (r: Constraint)
        requires
            self.wf(),
        ensures
            r == self.said_at(x as int, y as int),
    {
        if x >= self.width || y >= self.height {
            return Constraint::Free;
        }
        let i: usize = self.index(x, y);
        if self.has_fg(i) {
            Constraint::ForcedFg
        } else if self.has_bg(i) {
            Constraint::ForcedBg
        } else {
            Constraint::Free
        }
    }

    /// The marks on another size: each pixel takes those of the nearest.
    pub fn resampled(&self, width: u32, height: u32) -> (r: Self)
        requires
            self.wf(),
            0 < self.w(),
            0 < self.h(),
            width * height <= usize::MAX,
        ensures
            resamples(self, (width, height), &r),
    {
        let ghost (wi, hi) = (width as int, height as int);
        let n: usize = (width as usize) * (height as usize);
        let mut flags: Vec<u8> = Vec::with_capacity(n);
        let mut i: usize = 0;
        while i < n
            invariant
                self.wf(),
                0 < self.w(),
                0 < self.h(),
                wi == width,
                hi == height,
                n == wi * hi,
                i <= n,
                flags@.len() == i,
                forall|k: int|
                    0 <= k < i ==> is_copied(
                        self.flags@,
                        nearest_place((self.w(), self.h()), (width, height), k),
                        #[trigger] flags@[k],
                    ),
                forall|k: int| 0 <= k < i ==> #[trigger] flags@[k] <= 3,
            decreases n - i,
        {
            proof {
                crate::cutout::cells::lemma_small_place(wi, hi, i as int);
            }
            let x: u32 = nearest((i % (width as usize)) as u32, width, self.width);
            let y: u32 = nearest((i / (width as usize)) as u32, height, self.height);
            let p: usize = self.index(x, y);
            assert(p == nearest_place((self.w(), self.h()), (width, height), i as int));
            flags.push(self.flags[p]);
            i += 1;
        }
        let mut sources: Vec<ConstraintSource> = Vec::with_capacity(self.sources.len());
        let mut j: usize = 0;
        while j < self.sources.len()
            invariant
                j <= self.sources@.len(),
                sources@ == self.sources@.take(j as int),
            decreases self.sources@.len() - j,
        {
            sources.push(self.sources[j]);
            assert(self.sources@.take(j + 1) =~= self.sources@.take(j as int).push(self.sources@[j as int]));
            j += 1;
        }
        assert(self.sources@.take(j as int) =~= self.sources@);
        Constraints { width, height, flags, sources }
    }

    /// Marks one pixel; one outside the image is passed over.
    pub fn mark(&mut self, x: u32, y: u32, kind: Constraint)
        requires
            old(self).wf(),
        ensures
            painted(
                old(self),
                final(self),
                kind,
                Seq::new(
                    old(self).fg().len(),
                    |i: int| x < old(self).w() && y < old(self).h() && i == at(old(self).w() as int, x as int, y as int),
                ),
            ),
    {
        let ghost spot = Seq::new(
            self.fg().len(),
            |i: int| x < self.w() && y < self.h() && i == at(self.w() as int, x as int, y as int),
        );
        if x >= self.width || y >= self.height {
            assert(self.fg() =~= Seq::new(self.fg().len(), |i: int| self.fg()[i] || (says_fg(kind) && spot[i])));
            assert(self.bg() =~= Seq::new(self.bg().len(), |i: int| self.bg()[i] || (says_bg(kind) && spot[i])));
            return;
        }
        let index: usize = self.index(x, y);
        assert(spot =~= Seq::new(self.fg().len(), |i: int| i == index));
        self.mark_index(index, kind);
    }

    pub fn mark_index(&mut self, index: usize, kind: Constraint)
        requires
            old(self).wf(),
            index < old(self).fg().len(),
        ensures
            painted(old(self), final(self), kind, Seq::new(old(self).fg().len(), |i: int| i == index)),
    {
        let f: u8 = self.flags[index];
        proof {
            lemma_flags(f);
        }
        match kind {
            Constraint::Free => {},
            Constraint::ForcedFg => {
                self.flags.set(index, f | FG);
            },
            Constraint::ForcedBg => {
                self.flags.set(index, f | BG);
            },
        }
        proof {
            let area = Seq::new(old(self).fg().len(), |i: int| i == index);
            assert(self.fg() =~= Seq::new(
                old(self).fg().len(),
                |i: int| old(self).fg()[i] || (says_fg(kind) && area[i]),
            ));
            assert(self.bg() =~= Seq::new(
                old(self).bg().len(),
                |i: int| old(self).bg()[i] || (says_bg(kind) && area[i]),
            ));
        }
    }

    /// Whether some pixel is marked as foreground.
    pub fn any_fg(&self) -> (r: bool)
        requires
            self.wf(),
        ensures
            r <==> exists|i: int| 0 <= i < self.fg().len() && self.fg()[i],
    {
        let mut i: usize = 0;
        while i < self.flags.len()
            invariant
                self.wf(),
                i <= self.flags@.len(),
                forall|k: int| 0 <= k < i ==> !self.fg()[k],
            decreases self.flags@.len() - i,
        {
            if self.has_fg(i) {
                return true;
            }
            i += 1;
        }
        false
    }

    /// Whether some pixel is marked as background.
    pub fn any_bg(&self) -> (r: bool)
        requires
            self.wf(),
        ensures
            r <==> exists|i: int| 0 <= i < self.bg().len() && self.bg()[i],
    {
        let mut i: usize = 0;
        while i < self.flags.len()
            invariant
                self.wf(),
                i <= self.flags@.len(),
                forall|k: int| 0 <= k < i ==> !self.bg()[k],
            decreases self.flags@.len() - i,
        {
            if self.has_bg(i) {
                return true;
            }
            i += 1;
        }
        false
    }

    /// How many pixels are marked as foreground and as background. A pixel with
    /// both marks counts twice.
    pub fn counts(&self) -> (r: (u64, u64))
        requires
            self.wf(),
        ensures
            r.0 == tally(self.fg()),
            r.1 == tally(self.bg()),
    {
        let mut fg: u64 = 0;
        let mut bg: u64 = 0;
        let mut i: usize = 0;
        while i < self.flags.len()
            invariant
                self.wf(),
                i <= self.flags@.len(),
                fg == tally(self.fg().take(i as int)),
                bg == tally(self.bg().take(i as int)),
                fg <= i,
                bg <= i,
            decreases self.flags@.len() - i,
        {
            proof {
                lemma_tally_step(self.fg(), i as int);
                lemma_tally_step(self.bg(), i as int);
            }
            if self.has_fg(i) {
                fg += 1;
            }
            if self.has_bg(i) {
                bg += 1;
            }
            i += 1;
        }
        proof {
            assert(self.fg().take(i as int) =~= self.fg());
            assert(self.bg().take(i as int) =~= self.bg());
        }
        (fg, bg)
    }

    /// The pixels that are foreground, background and free, and how many the
    /// shares are of: the parts of the image, as numerators over a denominator
    /// that is never 0.
    pub fn ratios(&self) -> (r: (u64, u64, u64, u64))
        requires
            self.wf(),
        ensures
            r.0 == tally(self.fg()),
            r.1 == tally(self.bg()),
            r.2 == tally(self.free()),
            r.3 == if self.fg().len() == 0 { 1 } else { self.fg().len() as int },
    {
        let (fg, bg) = self.counts();
        let mut free: u64 = 0;
        let mut i: usize = 0;
        while i < self.flags.len()
            invariant
                self.wf(),
                i <= self.flags@.len(),
                free == tally(self.free().take(i as int)),
                free <= i,
            decreases self.flags@.len() - i,
        {
            proof {
                lemma_tally_step(self.free(), i as int);
                lemma_flags(self.flags@[i as int]);
            }
            if self.flags[i] == 0 {
                free += 1;
            }
            i += 1;
        }
        assert(self.free().take(i as int) =~= self.free());
        let total: u64 = if self.flags.len() == 0 { 1 } else { self.flags.len() as u64 };
        (fg, bg, free, total)
    }

    /// The places of a plane as pixels.
    pub open spec fn pixels_of(&self, s: Seq<bool>) -> Set<(int, int)> {
        Set::new(
            |p: (int, int)|
                on_plane(self.w() as int, self.h() as int, p.0, p.1) && s[at(self.w() as int, p.0, p.1)],
        )
    }

    /// Counts and boxes the pixels that carry both marks, if there are any.
    pub fn conflict(&self) -> (r: Option<Conflict>)
        requires
            self.wf(),
        ensures
            r is Some <==> tally(self.both()) > 0,
            r matches Some(c) ==> c.count == tally(self.both()) && box_of_any(
                self.pixels_of(self.both()),
                Some(c.bbox),
            ),
    {
        let ghost all = self.pixels_of(self.both());
        let ghost w = self.width as int;
        let ghost h = self.height as int;
        let ghost mut seen = Set::<(int, int)>::empty();
        let mut bounds: Bounds = Bounds::new();
        let mut count: u64 = 0;
        let mut i: usize = 0;
        while i < self.flags.len()
            invariant
                self.wf(),
                w == self.w(),
                h == self.h(),
                all == self.pixels_of(self.both()),
                i <= self.flags@.len(),
                count == tally(self.both().take(i as int)),
                count <= i,
                bounds.holds(seen),
                forall|p: (int, int)| #[trigger]
                    seen.contains(p) <==> all.contains(p) && at(w, p.0, p.1) < i,
            decreases self.flags@.len() - i,
        {
            let ghost had = seen;
            proof {
                lemma_tally_step(self.both(), i as int);
                assert(0 < w) by (nonlinear_arith)
                    requires
                        0 <= i < w * h,
                        0 <= w,
                ;
                lemma_at_join(w, h, i as int);
            }
            if self.has_fg(i) && self.has_bg(i) {
                let x: u32 = (i % (self.width as usize)) as u32;
                let y: u32 = (i / (self.width as usize)) as u32;
                count += 1;
                bounds.insert(x, y, Ghost(seen));
                proof {
                    seen = seen.insert((x as int, y as int));
                }
            }
            proof {
                assert forall|p: (int, int)| #[trigger]
                    seen.contains(p) <==> all.contains(p) && at(w, p.0, p.1) < i + 1 by {
                    if on_plane(w, h, p.0, p.1) && at(w, p.0, p.1) == i {
                        lemma_at_split(w, p.0, p.1);
                    }
                }
            }
            i += 1;
        }
        proof {
            assert(self.both().take(i as int) =~= self.both());
            assert forall|p: (int, int)| seen.contains(p) <==> all.contains(p) by {
                if all.contains(p) {
                    lemma_at_bound(w, h, p.0, p.1);
                }
            }
            assert(seen =~= all);
        }
        match bounds.finish(Ghost(all)) {
            Some(bbox) => {
                proof {
                    let p = choose|p: (int, int)| #[trigger] all.contains(p) && p.0 == bbox.0;
                    lemma_at_bound(w, h, p.0, p.1);
                    lemma_tally_zero(self.both());
                    assert(self.both()[at(w, p.0, p.1)]);
                }
                Some(Conflict { count, bbox })
            },
            None => {
                proof {
                    lemma_tally_zero(self.both());
                    assert forall|k: int| 0 <= k < self.both().len() implies !(#[trigger] self.both()[k]) by {
                        assert(0 < w) by (nonlinear_arith)
                            requires
                                0 <= k < w * h,
                                0 <= w,
                        ;
                        lemma_at_join(w, h, k);
                        assert(!all.contains((k % w, k / w)));
                    }
                }
                None
            },
        }
    }

    /// Marks a disc and returns how many pixels it covers.
    pub fn mark_disc(&mut self, cx: u32, cy: u32, radius: u32, kind: Constraint) -> (marked: u64)
        requires
            old(self).wf(),
        ensures
            painted(old(self), final(self), kind, disc(old(self).w(), old(self).h(), cx, cy, radius)),
            marked == tally(disc(old(self).w(), old(self).h(), cx, cy, radius)),
    {
        let ghost area = disc(self.w(), self.h(), cx, cy, radius);
        let places: Vec<usize> = disc_pixels(self.width, self.height, cx, cy, radius);
        proof {
            lemma_tally_bound(area);
        }
        self.mark_places(&places, kind, Ghost(area));
        assert(places@.map_values(|v: usize| v as int).len() == places@.len());
        places.len() as u64
    }

    /// Marks every listed place.
    fn mark_places(&mut self, places: &Vec<usize>, kind: Constraint, area: Ghost<Seq<bool>>)
        requires
            old(self).wf(),
            area@.len() == old(self).fg().len(),
            lists(places@, area@),
        ensures
            painted(old(self), final(self), kind, area@),
    {
        proof {
            crate::tally::lemma_ones(area@);
        }
        let mut k: usize = 0;
        while k < places.len()
            invariant
                old(self).wf(),
                self.wf(),
                self.w() == old(self).w(),
                self.h() == old(self).h(),
                self.listed() == old(self).listed(),
                self.fg().len() == old(self).fg().len() == area@.len(),
                k <= places@.len(),
                lists(places@, area@),
                forall|j: int| 0 <= j < ones(area@).len() ==> 0 <= #[trigger] ones(area@)[j] < area@.len() && area@[ones(
                    area@,
                )[j]],
                forall|i: int|
                    0 <= i < area@.len() ==> #[trigger] self.fg()[i] == (old(self).fg()[i] || (says_fg(kind)
                        && ones(area@).take(k as int).contains(i))),
                forall|i: int|
                    0 <= i < area@.len() ==> #[trigger] self.bg()[i] == (old(self).bg()[i] || (says_bg(kind)
                        && ones(area@).take(k as int).contains(i))),
            decreases places@.len() - k,
        {
            let index: usize = places[k];
            proof {
                assert(places@.map_values(|v: usize| v as int)[k as int] == index);
                assert(ones(area@)[k as int] == index);
                lemma_take_contains(ones(area@), k as int);
            }
            let ghost had = *self;
            self.mark_index(index, kind);
            proof {
                let next = ones(area@).take(k + 1);
                assert forall|i: int| 0 <= i < area@.len() implies #[trigger] self.fg()[i] == (old(self).fg()[i]
                    || (says_fg(kind) && next.contains(i))) by {
                    assert(self.fg()[i] == (had.fg()[i] || (says_fg(kind) && i == index)));
                }
                assert forall|i: int| 0 <= i < area@.len() implies #[trigger] self.bg()[i] == (old(self).bg()[i]
                    || (says_bg(kind) && next.contains(i))) by {
                    assert(self.bg()[i] == (had.bg()[i] || (says_bg(kind) && i == index)));
                }
            }
            k += 1;
        }
        proof {
            assert(places@.map_values(|v: usize| v as int).len() == places@.len());
            assert(ones(area@).take(k as int) =~= ones(area@));
            assert forall|i: int| 0 <= i < area@.len() implies ones(area@).contains(i) == area@[i] by {
                if ones(area@).contains(i) {
                    let j = choose|j: int| 0 <= j < ones(area@).len() && ones(area@)[j] == i;
                    assert(area@[ones(area@)[j]]);
                }
            }
            assert(self.fg() =~= Seq::new(
                old(self).fg().len(),
                |i: int| old(self).fg()[i] || (says_fg(kind) && area@[i]),
            ));
            assert(self.bg() =~= Seq::new(
                old(self).bg().len(),
                |i: int| old(self).bg()[i] || (says_bg(kind) && area@[i]),
            ));
        }
    }
}

/// One more element of a prefix.
proof fn lemma_take_contains(s: Seq<int>, k: int)
    requires
        0 <= k < s.len(),
    ensures
        forall|i: int| #[trigger] s.take(k + 1).contains(i) <==> s.take(k).contains(i) || i == s[k],
{
    let (a, b) = (s.take(k), s.take(k + 1));
    assert forall|i: int| b.contains(i) <==> a.contains(i) || i == s[k] by {
        if b.contains(i) {
            let j = choose|j: int| 0 <= j < b.len() && b[j] == i;
            if j < k {
                assert(a[j] == i);
            }
        }
        if a.contains(i) {
            let j = choose|j: int| 0 <= j < a.len() && a[j] == i;
            assert(b[j] == i);
        }
        if i == s[k] {
            assert(b[k] == i);
        }
    }
}

} // verus!

//! Morphology of masks and bit planes, and the removal of specks.
//!
//! A flood fill leaves specks: sensor noise that strays from the background
//! colour. Opening would remove them together with every strap and cable that
//! is thinner than its window, so specks are told apart by the area of their
//! connected component instead.
use vstd::prelude::*;

use crate::cutout::connect::{
    flood, joined, lemma_found_component, lemma_joined_back, lemma_joined_here, lemma_joined_open,
    lemma_joined_through, search_ok, whole,
};
use crate::cutout::mask::{Mask, FOREGROUND_THRESHOLD};
use crate::geometry::{at, lemma_at_bound, lemma_at_distinct, lemma_at_join, on_plane};
use crate::tally::{lemma_ones_skip, lemma_tally_step, lists};

verus! {

/// One truth value for each pixel, kept as bits.
#[derive(Debug, PartialEq, Eq)]
pub struct BitPlane {
    words: Vec<u64>,
    len: usize,
}

/// Bit `i` of a run of words.
spec fn bit(words: Seq<u64>, i: int) -> bool {
    (words[i / 64] >> ((i % 64) as u64)) & 1 == 1
}

proof fn lemma_bit_ops(word: u64, b: u64, c: u64)
    by (bit_vector)
    requires
        b < 64,
        c < 64,
    ensures
        ((word | (1u64 << b)) >> c) & 1 == 1 <==> (c == b || (word >> c) & 1 == 1),
        ((word & !(1u64 << b)) >> c) & 1 == 1 <==> (c != b && (word >> c) & 1 == 1),
{
}

proof fn lemma_bit_zero(c: u64)
    by (bit_vector)
    requires
        c < 64,
    ensures
        (0u64 >> c) & 1 == 0,
{
}

impl View for BitPlane {
    type V = Seq<bool>;

    closed spec fn view(&self) -> Seq<bool> {
        Seq::new(self.len as nat, |i: int| bit(self.words@, i))
    }
}

impl Default for BitPlane {
    fn default() -> (r: Self)
        ensures
            r.wf(),
            r@ == Seq::<bool>::empty(),
    {
        let r: BitPlane = BitPlane { words: Vec::new(), len: 0 };
        assert(r@ =~= Seq::<bool>::empty());
        r
    }
}

impl BitPlane {
    /// There are just enough words, and no bit beyond the length is set.
    pub closed spec fn wf(&self) -> bool {
        &&& self.words@.len() == (self.len + 63) / 64
        &&& forall|i: int| self.len <= i < 64 * self.words@.len() ==> !bit(self.words@, i)
    }

    pub fn new(len: usize) -> (r: Self)
        ensures
            r.wf(),
            r@ == Seq::new(len as nat, |i: int| false),
    {
        let extra: usize = if len % 64 == 0 { 0 } else { 1 };
        let words: Vec<u64> = vec![0u64; len / 64 + extra];
        let r: BitPlane = BitPlane { words, len };
        proof {
            assert forall|i: int| 0 <= i < 64 * r.words@.len() implies !bit(r.words@, i) by {
                lemma_bit_zero((i % 64) as u64);
            }
            assert(r@ =~= Seq::new(len as nat, |i: int| false));
        }
        r
    }

    pub fn len(&self) -> (r: usize)
        ensures
            r == self@.len(),
    {
        self.len
    }

    pub fn is_empty(&self) -> (r: bool)
        ensures
            r == (self@.len() == 0),
    {
        self.len == 0
    }

    pub fn get(&self, index: usize) -> (r: bool)
        requires
            self.wf(),
            index < self@.len(),
        ensures
            r == self@[index as int],
    {
        (self.words[index / 64] >> ((index % 64) as u64)) & 1 == 1
    }

    /// Asks as if an empty plane held nothing anywhere.
    pub fn contains(&self, index: usize) -> (r: bool)
        requires
            self.wf(),
            self@.len() == 0 || index < self@.len(),
        ensures
            r == (self@.len() > 0 && self@[index as int]),
    {
        self.len != 0 && self.get(index)
    }

    pub fn insert(&mut self, index: usize)
        requires
            old(self).wf(),
            index < old(self)@.len(),
        ensures
            final(self).wf(),
            final(self)@ == old(self)@.update(index as int, true),
    {
        self.set(index, true);
    }

    pub fn set(&mut self, index: usize, value: bool)
        requires
            old(self).wf(),
            index < old(self)@.len(),
        ensures
            final(self).wf(),
            final(self)@ == old(self)@.update(index as int, value),
    {
        let ghost was = self.words@;
        let k: usize = index / 64;
        let b: u64 = (index % 64) as u64;
        let word: u64 = self.words[k];
        self.words.set(k, if value { word | (1u64 << b) } else { word & !(1u64 << b) });
        proof {
            assert forall|i: int| 0 <= i < 64 * was.len() implies bit(self.words@, i) == if i == index {
                value
            } else {
                bit(was, i)
            } by {
                lemma_bit_ops(word, b, (i % 64) as u64);
            }
            assert(self@ =~= old(self)@.update(index as int, value));
        }
    }

    /// The set places in ascending order. Words without a set bit are passed
    /// over at once.
    pub fn for_each_set(&self) -> (r: Vec<usize>)
        requires
            self.wf(),
        ensures
            lists(r@, self@),
    {
        let mut r: Vec<usize> = Vec::new();
        let mut k: usize = 0;
        let ghost n = self.len as int;
        assert(self@.take(0) =~= Seq::empty());
        assert(r@.map_values(|v: usize| v as int) =~= Seq::empty());
        assert(lists(r@, self@.take(0)));
        while k < self.words.len()
            invariant
                self.wf(),
                n == self.len == self@.len(),
                k <= self.words@.len(),
                lists(r@, self@.take(if 64 * k < n { 64 * k as int } else { n })),
            decreases self.words@.len() - k,
        {
            let word: u64 = self.words[k];
            if word != 0 {
                let mut b: usize = 0;
                while b < 64
                    invariant
                        self.wf(),
                        n == self.len == self@.len(),
                        k < self.words@.len(),
                        word == self.words@[k as int],
                        b <= 64,
                        lists(r@, self@.take(if 64 * k + b < n { 64 * k + b } else { n })),
                    decreases 64 - b,
                {
                    let ghost here = 64 * k + b;
                    let ghost had = r@;
                    assert(here / 64 == k && here % 64 == b);
                    assert(((word >> (b as u64)) & 1 == 1) == bit(self.words@, here));
                    proof {
                        if here < n {
                            lemma_tally_step(self@, here);
                        }
                    }
                    if (word >> (b as u64)) & 1 == 1 {
                        let i: usize = k * 64 + b;
                        r.push(i);
                        assert(r@.map_values(|v: usize| v as int) =~= had.map_values(|v: usize| v as int).push(here));
                    }
                    b += 1;
                }
            } else {
                proof {
                    let from = if 64 * k < n { 64 * k as int } else { n };
                    let to = if 64 * k + 64 < n { 64 * k + 64 } else { n };
                    assert forall|i: int| from <= i < to implies !(#[trigger] self@[i]) by {
                        lemma_bit_zero((i % 64) as u64);
                        assert(i / 64 == k);
                    }
                    lemma_ones_skip(self@, from, to);
                }
            }
            k += 1;
        }
        assert(self@.take(n) =~= self@);
        r
    }
}

/// A plane of truth values that morphology can read, whatever its layout.
pub trait Plane {
    spec fn plane(&self) -> Seq<bool>;

    spec fn readable(&self) -> bool;

    fn at(&self, index: usize) -> (r: bool)
        requires
            self.readable(),
            index < self.plane().len(),
        ensures
            r == self.plane()[index as int],
    ;
}

impl Plane for [bool] {
    open spec fn plane(&self) -> Seq<bool> {
        self@
    }

    open spec fn readable(&self) -> bool {
        true
    }

    fn at(&self, index: usize) -> (r: bool) {
        self[index]
    }
}

impl Plane for BitPlane {
    open spec fn plane(&self) -> Seq<bool> {
        self@
    }

    open spec fn readable(&self) -> bool {
        self.wf()
    }

    fn at(&self, index: usize) -> (r: bool) {
        self.get(index)
    }
}

/// `(u, v)` is at most `rx` columns and `ry` rows away from `(x, y)`.
pub open spec fn in_window(rx: int, ry: int, x: int, y: int, u: int, v: int) -> bool {
    x - rx <= u <= x + rx && y - ry <= v <= y + ry
}

/// Some pixel of the window around `(x, y)` is `value`. What lies outside the
/// plane belongs to no window.
pub open spec fn window_has(s: Seq<bool>, w: int, h: int, rx: int, ry: int, x: int, y: int, value: bool) -> bool {
    exists|u: int, v: int|
        on_plane(w, h, u, v) && in_window(rx, ry, x, y, u, v) && #[trigger] s[at(w, u, v)] == value
}

/// Dilation (`take_max`) asks for one set pixel in the window, erosion for
/// nothing but set ones.
pub open spec fn windowed(s: Seq<bool>, w: int, h: int, rx: int, ry: int, x: int, y: int, take_max: bool) -> bool {
    if take_max {
        window_has(s, w, h, rx, ry, x, y, true)
    } else {
        !window_has(s, w, h, rx, ry, x, y, false)
    }
}

/// A plane in which each pixel is the dilation or erosion of its window.
pub open spec fn is_windowed(
    out: Seq<bool>,
    s: Seq<bool>,
    w: int,
    h: int,
    rx: int,
    ry: int,
    take_max: bool,
) -> bool {
    &&& out.len() == w * h
    &&& forall|x: int, y: int|
        on_plane(w, h, x, y) ==> #[trigger] out[at(w, x, y)] == windowed(s, w, h, rx, ry, x, y, take_max)
}

/// A row pass followed by a column pass covers the square window.
proof fn lemma_window_passes(out: Seq<bool>, rows: Seq<bool>, s: Seq<bool>, w: int, h: int, r: int, take_max: bool)
    requires
        is_windowed(rows, s, w, h, r, 0, take_max),
        is_windowed(out, rows, w, h, 0, r, take_max),
        0 <= r,
    ensures
        is_windowed(out, s, w, h, r, r, take_max),
{
    assert forall|x: int, y: int| on_plane(w, h, x, y) implies #[trigger] out[at(w, x, y)] == windowed(
        s,
        w,
        h,
        r,
        r,
        x,
        y,
        take_max,
    ) by {
        let t = take_max;
        if window_has(rows, w, h, 0, r, x, y, t) {
            let (u, v) = choose|u: int, v: int|
                on_plane(w, h, u, v) && in_window(0, r, x, y, u, v) && #[trigger] rows[at(w, u, v)] == t;
            assert(window_has(s, w, h, r, 0, u, v, t));
            let (a, b) = choose|a: int, b: int|
                on_plane(w, h, a, b) && in_window(r, 0, u, v, a, b) && #[trigger] s[at(w, a, b)] == t;
            assert(in_window(r, r, x, y, a, b));
            assert(window_has(s, w, h, r, r, x, y, t));
        }
        if window_has(s, w, h, r, r, x, y, t) {
            let (a, b) = choose|a: int, b: int|
                on_plane(w, h, a, b) && in_window(r, r, x, y, a, b) && #[trigger] s[at(w, a, b)] == t;
            assert(in_window(r, 0, x, b, a, b));
            assert(window_has(s, w, h, r, 0, x, b, t));
            assert(rows[at(w, x, b)] == t);
            assert(in_window(0, r, x, y, x, b));
            assert(window_has(rows, w, h, 0, r, x, y, t));
        }
    }
}

/// One pass of `separable`, along rows or along columns.
fn line_pass<P: Plane + ?Sized>(w: usize, h: usize, src: &P, r: usize, take_max: bool, rows: bool) -> (out: BitPlane)
    requires
        w * h <= usize::MAX,
        src.readable(),
        src.plane().len() >= w * h,
    ensures
        out.wf(),
        is_windowed(
            out@,
            src.plane(),
            w as int,
            h as int,
            if rows { r as int } else { 0 },
            if rows { 0 } else { r as int },
            take_max,
        ),
{
    let ghost s = src.plane();
    let ghost wi = w as int;
    let ghost hi = h as int;
    let ghost rx: int = if rows { r as int } else { 0 };
    let ghost ry: int = if rows { 0 } else { r as int };
    let mut out: BitPlane = BitPlane::new(w * h);
    let mut y: usize = 0;
    while y < h
        invariant
            w * h <= usize::MAX,
            src.readable(),
            s == src.plane(),
            s.len() >= w * h,
            wi == w,
            hi == h,
            rx == if rows { r as int } else { 0 },
            ry == if rows { 0 } else { r as int },
            y <= h,
            out.wf(),
            out@.len() == w * h,
            forall|a: int, b: int|
                on_plane(wi, hi, a, b) && b < y ==> #[trigger] out@[at(wi, a, b)] == windowed(
                    s,
                    wi,
                    hi,
                    rx,
                    ry,
                    a,
                    b,
                    take_max,
                ),
        decreases h - y,
    {
        let mut x: usize = 0;
        while x < w
            invariant
                w * h <= usize::MAX,
                src.readable(),
                s == src.plane(),
                s.len() >= w * h,
                wi == w,
                hi == h,
                rx == if rows { r as int } else { 0 },
                ry == if rows { 0 } else { r as int },
                x <= w,
                y < h,
                out.wf(),
                out@.len() == w * h,
                forall|a: int, b: int|
                    on_plane(wi, hi, a, b) && (b < y || (b == y && a < x)) ==> #[trigger] out@[at(wi, a, b)]
                        == windowed(s, wi, hi, rx, ry, a, b, take_max),
            decreases w - x,
        {
            let pos: usize = if rows { x } else { y };
            let limit: usize = if rows { w } else { h };
            let from: usize = if pos < r { 0 } else { pos - r };
            let to: usize = if r < limit - pos { pos + r } else { limit - 1 };
            let mut hit: bool = false;
            let mut k: usize = from;
            while k <= to
                invariant
                    w * h <= usize::MAX,
                    src.readable(),
                    s == src.plane(),
                    s.len() >= w * h,
                    wi == w,
                    hi == h,
                    x < w,
                    y < h,
                    pos == if rows { x } else { y },
                    limit == if rows { w } else { h },
                    from == if pos < r { 0 } else { pos - r },
                    to == if r < limit - pos { pos + r } else { limit - 1 },
                    from <= k <= to + 1,
                    to < limit,
                    rx == if rows { r as int } else { 0 },
                    ry == if rows { 0 } else { r as int },
                    hit ==> window_has(s, wi, hi, rx, ry, x as int, y as int, take_max),
                    !hit ==> forall|u: int, v: int|
                        on_plane(wi, hi, u, v) && in_window(rx, ry, x as int, y as int, u, v) && (if rows {
                            u < k
                        } else {
                            v < k
                        }) ==> #[trigger] s[at(wi, u, v)] != take_max,
                decreases to + 1 - k,
            {
                let cx: usize = if rows { k } else { x };
                let cy: usize = if rows { y } else { k };
                proof {
                    lemma_at_bound(wi, hi, cx as int, cy as int);
                }
                let value: bool = src.at(cy * w + cx);
                if value == take_max {
                    assert(in_window(rx, ry, x as int, y as int, cx as int, cy as int));
                    assert(s[at(wi, cx as int, cy as int)] == take_max);
                    hit = true;
                }
                k += 1;
            }
            proof {
                lemma_at_bound(wi, hi, x as int, y as int);
            }
            let i: usize = y * w + x;
            let ghost had = out@;
            out.set(i, hit == take_max);
            proof {
                assert(windowed(s, wi, hi, rx, ry, x as int, y as int, take_max) == (hit == take_max));
                assert forall|a: int, b: int| on_plane(wi, hi, a, b) && (b < y || (b == y && a < x + 1)) implies #[trigger] out@[at(
                    wi,
                    a,
                    b,
                )] == windowed(s, wi, hi, rx, ry, a, b, take_max) by {
                    lemma_at_bound(wi, hi, a, b);
                    if at(wi, a, b) == i {
                        lemma_at_distinct(wi, a, b, x as int, y as int);
                    } else {
                        assert(out@[at(wi, a, b)] == had[at(wi, a, b)]);
                    }
                }
            }
            x += 1;
        }
        y += 1;
    }
    out
}

/// Erosion (`take_max` false) or dilation (true) by a square window of side
/// `2 * radius + 1`. What lies outside the plane is not part of the window: a
/// background cut off by the frame is not eaten from that side. Of a longer plane
/// the first `w * h` places are read.
pub fn separable<P: Plane + ?Sized>(w: usize, h: usize, src: &P, radius: u32, take_max: bool) -> (out: BitPlane)
    requires
        w * h <= usize::MAX,
        src.readable(),
        src.plane().len() >= w * h,
    ensures
        out.wf(),
        is_windowed(out@, src.plane(), w as int, h as int, radius as int, radius as int, take_max),
        radius == 0 ==> out@ == src.plane().take(w * h),
{
    let r: usize = radius as usize;
    let rows: BitPlane = line_pass(w, h, src, r, take_max, true);
    let out: BitPlane = line_pass(w, h, &rows, r, take_max, false);
    proof {
        lemma_window_passes(out@, rows@, src.plane(), w as int, h as int, r as int, take_max);
        if radius == 0 {
            lemma_window_zero(out@, src.plane(), w as int, h as int, take_max);
        }
    }
    out
}

/// The window of radius 0 is the pixel itself.
proof fn lemma_window_zero(out: Seq<bool>, s: Seq<bool>, w: int, h: int, take_max: bool)
    requires
        is_windowed(out, s, w, h, 0, 0, take_max),
        s.len() >= w * h,
        0 <= w,
        0 <= h,
    ensures
        out == s.take(w * h),
{
    assert forall|i: int| 0 <= i < w * h implies out[i] == s[i] by {
        assert(0 < w) by (nonlinear_arith)
            requires
                0 <= i < w * h,
                0 <= w,
        ;
        lemma_at_join(w, h, i);
        let x = i % w;
        let y = i / w;
        assert(out[at(w, x, y)] == windowed(s, w, h, 0, 0, x, y, take_max));
        assert(in_window(0, 0, x, y, x, y));
        assert(s[at(w, x, y)] == s[i]);
        if window_has(s, w, h, 0, 0, x, y, take_max) {
        }
    }
    assert(out =~= s.take(w * h));
}

/// `value` is the largest (`take_max`) or the smallest value in the window
/// around `(x, y)`.
pub open spec fn extreme(
    m: Seq<u8>,
    w: int,
    h: int,
    rx: int,
    ry: int,
    x: int,
    y: int,
    take_max: bool,
    value: u8,
) -> bool {
    &&& exists|u: int, v: int|
        on_plane(w, h, u, v) && in_window(rx, ry, x, y, u, v) && #[trigger] m[at(w, u, v)] == value
    &&& forall|u: int, v: int|
        on_plane(w, h, u, v) && in_window(rx, ry, x, y, u, v) ==> if take_max {
            #[trigger] m[at(w, u, v)] <= value
        } else {
            m[at(w, u, v)] >= value
        }
}

/// `out` holds, at each pixel, the largest or smallest value of its window in `m`.
pub open spec fn is_filtered(out: Seq<u8>, m: Seq<u8>, w: int, h: int, rx: int, ry: int, take_max: bool) -> bool {
    &&& out.len() == w * h
    &&& forall|x: int, y: int|
        on_plane(w, h, x, y) ==> extreme(m, w, h, rx, ry, x, y, take_max, #[trigger] out[at(w, x, y)])
}

/// `out` is the erosion of `m` by a square window.
pub open spec fn eroded(out: &Mask, m: &Mask, radius: u32) -> bool {
    &&& out.wf()
    &&& out.w() == m.w()
    &&& out.h() == m.h()
    &&& is_filtered(out@, m@, m.w() as int, m.h() as int, radius as int, radius as int, false)
}

/// `out` is the dilation of `m` by a square window.
pub open spec fn dilated(out: &Mask, m: &Mask, radius: u32) -> bool {
    &&& out.wf()
    &&& out.w() == m.w()
    &&& out.h() == m.h()
    &&& is_filtered(out@, m@, m.w() as int, m.h() as int, radius as int, radius as int, true)
}

proof fn lemma_filter_passes(out: Seq<u8>, rows: Seq<u8>, m: Seq<u8>, w: int, h: int, r: int, take_max: bool)
    requires
        is_filtered(rows, m, w, h, r, 0, take_max),
        is_filtered(out, rows, w, h, 0, r, take_max),
        0 <= r,
    ensures
        is_filtered(out, m, w, h, r, r, take_max),
{
    assert forall|x: int, y: int| on_plane(w, h, x, y) implies extreme(
        m,
        w,
        h,
        r,
        r,
        x,
        y,
        take_max,
        #[trigger] out[at(w, x, y)],
    ) by {
        let value = out[at(w, x, y)];
        let (u, v) = choose|u: int, v: int|
            on_plane(w, h, u, v) && in_window(0, r, x, y, u, v) && #[trigger] rows[at(w, u, v)] == value;
        let (a, b) = choose|a: int, b: int|
            on_plane(w, h, a, b) && in_window(r, 0, u, v, a, b) && #[trigger] m[at(w, a, b)] == rows[at(
                w,
                u,
                v,
            )];
        assert(in_window(r, r, x, y, a, b) && m[at(w, a, b)] == value);
        assert forall|a: int, b: int| on_plane(w, h, a, b) && in_window(r, r, x, y, a, b) implies if take_max {
            #[trigger] m[at(w, a, b)] <= value
        } else {
            m[at(w, a, b)] >= value
        } by {
            assert(on_plane(w, h, x, b));
            assert(extreme(m, w, h, r, 0, x, b, take_max, rows[at(w, x, b)]));
            assert(in_window(r, 0, x, b, a, b));
            assert(in_window(0, r, x, y, x, b));
        }
    }
}

/// The window of radius 0 is the pixel itself.
proof fn lemma_filter_zero(out: Seq<u8>, m: Seq<u8>, w: int, h: int, take_max: bool)
    requires
        out == m,
        m.len() == w * h,
    ensures
        is_filtered(out, m, w, h, 0, 0, take_max),
{
    assert forall|x: int, y: int| on_plane(w, h, x, y) implies extreme(
        m,
        w,
        h,
        0,
        0,
        x,
        y,
        take_max,
        #[trigger] out[at(w, x, y)],
    ) by {
        assert(in_window(0, 0, x, y, x, y) && m[at(w, x, y)] == out[at(w, x, y)]);
        assert forall|u: int, v: int| on_plane(w, h, u, v) && in_window(0, 0, x, y, u, v) implies u == x && v == y by {}
    }
}

/// Removes `radius` pixels of foreground all round.
pub fn erode(mask: &Mask, radius: u32) -> (out: Mask)
    requires
        mask.wf(),
    ensures
        eroded(&out, mask, radius),
        radius == 0 ==> out@ == mask@,
{
    filter(mask, radius, false)
}

/// Adds `radius` pixels of foreground all round.
pub fn dilate(mask: &Mask, radius: u32) -> (out: Mask)
    requires
        mask.wf(),
    ensures
        dilated(&out, mask, radius),
        radius == 0 ==> out@ == mask@,
{
    filter(mask, radius, true)
}

/// Erosion, then dilation: removes foreground that the window does not fit in.
pub fn open(mask: &Mask, radius: u32) -> (out: Mask)
    requires
        mask.wf(),
    ensures
        exists|core: Mask| #[trigger] eroded(&core, mask, radius) && dilated(&out, &core, radius),
        radius == 0 ==> out@ == mask@,
{
    let core: Mask = erode(mask, radius);
    let out: Mask = dilate(&core, radius);
    assert(eroded(&core, mask, radius) && dilated(&out, &core, radius));
    out
}

/// Dilation, then erosion: fills holes that the window does not fit in.
pub fn close(mask: &Mask, radius: u32) -> (out: Mask)
    requires
        mask.wf(),
    ensures
        exists|hull: Mask| #[trigger] dilated(&hull, mask, radius) && eroded(&out, &hull, radius),
        radius == 0 ==> out@ == mask@,
{
    let hull: Mask = dilate(mask, radius);
    let out: Mask = erode(&hull, radius);
    assert(dilated(&hull, mask, radius) && eroded(&out, &hull, radius));
    out
}

/// The smallest or largest value of each square window, in two passes.
fn filter(mask: &Mask, radius: u32, take_max: bool) -> (out: Mask)
    requires
        mask.wf(),
    ensures
        out.wf(),
        out.w() == mask.w(),
        out.h() == mask.h(),
        is_filtered(
            out@,
            mask@,
            mask.w() as int,
            mask.h() as int,
            radius as int,
            radius as int,
            take_max,
        ),
        radius == 0 ==> out@ == mask@,
{
    if radius == 0 {
        let out: Mask = mask.clone();
        proof {
            lemma_filter_zero(out@, mask@, mask.w() as int, mask.h() as int, take_max);
        }
        return out;
    }
    let rows: Mask = pass(mask, radius, take_max, true);
    let out: Mask = pass(&rows, radius, take_max, false);
    proof {
        lemma_filter_passes(out@, rows@, mask@, mask.w() as int, mask.h() as int, radius as int, take_max);
    }
    out
}

/// One pass of `filter`, along rows or along columns.
fn pass(mask: &Mask, radius: u32, take_max: bool, horizontal: bool) -> (out: Mask)
    requires
        mask.wf(),
    ensures
        out.wf(),
        out.w() == mask.w(),
        out.h() == mask.h(),
        is_filtered(
            out@,
            mask@,
            mask.w() as int,
            mask.h() as int,
            if horizontal { radius as int } else { 0 },
            if horizontal { 0 } else { radius as int },
            take_max,
        ),
{
    let w: u32 = mask.width();
    let h: u32 = mask.height();
    let ghost m = mask@;
    let ghost wi = w as int;
    let ghost hi = h as int;
    let ghost rx: int = if horizontal { radius as int } else { 0 };
    let ghost ry: int = if horizontal { 0 } else { radius as int };
    let mut out: Mask = Mask::new(w, h, 0);
    let mut y: u32 = 0;
    while y < h
        invariant
            mask.wf(),
            m == mask@,
            wi == w == mask.w(),
            hi == h == mask.h(),
            rx == if horizontal { radius as int } else { 0 },
            ry == if horizontal { 0 } else { radius as int },
            y <= h,
            out.wf(),
            out.w() == w,
            out.h() == h,
            forall|a: int, b: int|
                on_plane(wi, hi, a, b) && b < y ==> extreme(m, wi, hi, rx, ry, a, b, take_max, #[trigger] out.px(a, b)),
        decreases h - y,
    {
        let mut x: u32 = 0;
        while x < w
            invariant
                mask.wf(),
                m == mask@,
                wi == w == mask.w(),
                hi == h == mask.h(),
                rx == if horizontal { radius as int } else { 0 },
                ry == if horizontal { 0 } else { radius as int },
                x <= w,
                y < h,
                out.wf(),
                out.w() == w,
                out.h() == h,
                forall|a: int, b: int|
                    on_plane(wi, hi, a, b) && (b < y || (b == y && a < x)) ==> extreme(
                        m,
                        wi,
                        hi,
                        rx,
                        ry,
                        a,
                        b,
                        take_max,
                        #[trigger] out.px(a, b),
                    ),
            decreases w - x,
        {
            let pos: u32 = if horizontal { x } else { y };
            let limit: u32 = if horizontal { w } else { h };
            let from: u32 = if pos < radius { 0 } else { pos - radius };
            let to: u32 = if radius < limit - pos { pos + radius } else { limit - 1 };
            let mut acc: u8 = if horizontal { mask.get(from, y) } else { mask.get(x, from) };
            let mut k: u32 = from;
            assert(in_window(
                rx,
                ry,
                x as int,
                y as int,
                if horizontal { from as int } else { x as int },
                if horizontal { y as int } else { from as int },
            ));
            while k < to
                invariant
                    mask.wf(),
                    m == mask@,
                    wi == w == mask.w(),
                    hi == h == mask.h(),
                    x < w,
                    y < h,
                    pos == if horizontal { x } else { y },
                    limit == if horizontal { w } else { h },
                    from == if pos < radius { 0 } else { pos - radius },
                    to == if radius < limit - pos { pos + radius } else { limit - 1 },
                    from <= k <= to < limit,
                    rx == if horizontal { radius as int } else { 0 },
                    ry == if horizontal { 0 } else { radius as int },
                    exists|u: int, v: int|
                        on_plane(wi, hi, u, v) && in_window(rx, ry, x as int, y as int, u, v)
                            && #[trigger] m[at(wi, u, v)] == acc,
                    forall|u: int, v: int|
                        on_plane(wi, hi, u, v) && in_window(rx, ry, x as int, y as int, u, v) && (if horizontal {
                            u <= k
                        } else {
                            v <= k
                        }) ==> if take_max {
                            #[trigger] m[at(wi, u, v)] <= acc
                        } else {
                            m[at(wi, u, v)] >= acc
                        },
                decreases to - k,
            {
                k += 1;
                let value: u8 = if horizontal { mask.get(k, y) } else { mask.get(x, k) };
                if if take_max { value > acc } else { value < acc } {
                    acc = value;
                    proof {
                        let u = if horizontal { k as int } else { x as int };
                        let v = if horizontal { y as int } else { k as int };
                        assert(on_plane(wi, hi, u, v) && in_window(rx, ry, x as int, y as int, u, v) && m[at(
                            wi,
                            u,
                            v,
                        )] == acc);
                    }
                }
            }
            let ghost had = out;
            out.set(x, y, acc);
            proof {
                assert(extreme(m, wi, hi, rx, ry, x as int, y as int, take_max, acc));
            }
            x += 1;
        }
        y += 1;
    }
    proof {
        assert forall|a: int, b: int| on_plane(wi, hi, a, b) implies extreme(
            m,
            wi,
            hi,
            rx,
            ry,
            a,
            b,
            take_max,
            #[trigger] out@[at(wi, a, b)],
        ) by {
            assert(extreme(m, wi, hi, rx, ry, a, b, take_max, out.px(a, b)));
        }
    }
    out
}

/// The long edge of the image in pixels, but never less than 1000: lengths and
/// areas are given for a long edge of 1000 pixels and grow with the image, while
/// smaller images keep them as they are.
pub open spec fn long_edge(width: u32, height: u32) -> int {
    let long = if width > height { width as int } else { height as int };
    if long < 1000 { 1000 } else { long }
}

/// The side of the square of radius `radius`, in thousandths of a pixel.
pub open spec fn speck_side(radius: u32, width: u32, height: u32) -> int {
    (2 * radius + 1) * long_edge(width, height)
}

/// The area of that square, rounded to the nearest pixel.
pub open spec fn speck_square(radius: u32, width: u32, height: u32) -> int {
    let n = speck_side(radius, width, height);
    (n * n + 500_000) / 1_000_000
}

/// The area below which a component is a speck, as far as it can be counted. With
/// radius 0 there are no specks.
pub open spec fn speck_area(radius: u32, width: u32, height: u32) -> int {
    let area = speck_square(radius, width, height);
    if radius == 0 {
        0
    } else if area > usize::MAX {
        usize::MAX as int
    } else {
        area
    }
}

/// The radius of specks in pixels of the image.
pub open spec fn speck_reach(radius: u32, width: u32, height: u32) -> int {
    let half = speck_side(radius, width, height) / 2000;
    if radius == 0 {
        0
    } else if half > u32::MAX {
        u32::MAX as int
    } else {
        half
    }
}

fn scaled_side(radius: u32, width: u32, height: u32) -> (n: u128)
    ensures
        n == speck_side(radius, width, height),
        1000 <= n <= 0x2_0000_0000 * 0x1_0000_0000,
{
    let long: u32 = if width > height { width } else { height };
    let long: u32 = if long < 1000 { 1000 } else { long };
    let side: u128 = 2 * (radius as u128) + 1;
    assert(1000 <= side * long <= 0x2_0000_0000 * 0x1_0000_0000) by (nonlinear_arith)
        requires
            1 <= side <= 0x2_0000_0000,
            1000 <= long <= 0x1_0000_0000,
    ;
    side * (long as u128)
}

/// The area below which a component is a speck: that of a square of radius
/// `radius` at a long edge of 1000 pixels, rounded to the nearest pixel. Specks
/// look the same size at every resolution, so their area grows with the square
/// of the long edge. Radius 0 switches the filter off.
pub fn speck_min_area(radius: u32, width: u32, height: u32) -> (r: usize)
    ensures
        r == speck_area(radius, width, height),
{
    if radius == 0 {
        return 0;
    }
    let n: u128 = scaled_side(radius, width, height);
    if n >= 0x1_0000_0000_00 * 0x10_0000 {
        assert(n * n >= 0x1_0000_0000_0000_0000 * 1_000_000) by (nonlinear_arith)
            requires
                n >= 0x1_0000_0000_00 * 0x10_0000,
        ;
        return usize::MAX;
    }
    assert(n * n <= 0x1000_0000_0000_0000 * 0x1000_0000_0000_0000) by (nonlinear_arith)
        requires
            n <= 0x1000_0000_0000_0000,
    ;
    let area: u128 = (n * n + 500_000) / 1_000_000;
    if area > usize::MAX as u128 {
        usize::MAX
    } else {
        area as usize
    }
}

/// The radius in pixels of the square that `speck_min_area` measures, rounded to
/// the nearest pixel.
pub fn speck_radius(radius: u32, width: u32, height: u32) -> (r: u32)
    ensures
        r == speck_reach(radius, width, height),
{
    if radius == 0 {
        return 0;
    }
    let half: u128 = scaled_side(radius, width, height) / 2000;
    if half > u32::MAX as u128 {
        u32::MAX
    } else {
        half as u32
    }
}

/// The places of a mask that are not fully transparent.
pub open spec fn visible(m: Seq<u8>) -> Seq<bool> {
    m.map_values(|v: u8| v != 0)
}

/// The places of the component of `i` that count as foreground. Components are
/// linked over visible pixels, diagonals included.
pub open spec fn core_of(m: Seq<u8>, w: int, i: int) -> Set<int> {
    Set::new(|j: int| joined(w, true, visible(m), i, j) && m[j] >= FOREGROUND_THRESHOLD)
}

/// What is left at place `i` when components with a core below `min_area` go.
pub open spec fn without_specks(m: Seq<u8>, w: int, min_area: int, i: int) -> u8 {
    if m[i] != 0 && core_of(m, w, i).len() < min_area {
        0
    } else {
        m[i]
    }
}

/// Clears every connected component whose opaque core is smaller than
/// `speck_min_area`. Radius 0 leaves the mask as it is.
///
/// Components are followed over every visible pixel and measured by their
/// foreground alone, so that a speck goes together with its faint fringe.
pub fn remove_specks(mask: &Mask, radius: u32) -> (out: Mask)
    requires
        mask.wf(),
    ensures
        out.wf(),
        out.w() == mask.w(),
        out.h() == mask.h(),
        radius == 0 ==> out@ == mask@,
        radius > 0 ==> forall|i: int|
            0 <= i < mask@.len() ==> #[trigger] out@[i] == without_specks(
                mask@,
                mask.w() as int,
                speck_area(radius, mask.w(), mask.h()),
                i,
            ),
{
    if radius == 0 {
        return mask.clone();
    }
    let min_area: usize = speck_min_area(radius, mask.width(), mask.height());
    let out: Mask = clear_components(mask, min_area);
    out
}

fn visible_plane(mask: &Mask) -> (r: BitPlane)
    requires
        mask.wf(),
    ensures
        r.wf(),
        r@ == visible(mask@),
{
    let data: &[u8] = mask.as_slice();
    let mut r: BitPlane = BitPlane::new(data.len());
    let mut i: usize = 0;
    while i < data.len()
        invariant
            data@ == mask@,
            i <= data@.len(),
            r.wf(),
            r@.len() == data@.len(),
            forall|k: int| 0 <= k < i ==> #[trigger] r@[k] == (data@[k] != 0),
        decreases data@.len() - i,
    {
        r.set(i, data[i] != 0);
        i += 1;
    }
    assert(r@ =~= visible(mask@));
    r
}

/// Counts the foreground among the places of one component.
fn core_size(mask: &Mask, found: &Vec<usize>, start: Ghost<int>) -> (r: usize)
    requires
        mask.wf(),
        found@.no_duplicates(),
        forall|k: int| 0 <= k < found@.len() ==> (#[trigger] found@[k]) < mask@.len(),
        0 <= start@ < mask@.len(),
        forall|j: int|
            0 <= j < mask@.len() ==> (found@.contains(j as usize) <==> #[trigger] joined(
                mask.w() as int,
                true,
                visible(mask@),
                start@,
                j,
            )),
    ensures
        core_of(mask@, mask.w() as int, start@).finite(),
        r == core_of(mask@, mask.w() as int, start@).len(),
{
    let data: &[u8] = mask.as_slice();
    let ghost w = mask.w() as int;
    let ghost open = visible(mask@);
    let mut core: usize = 0;
    let mut k: usize = 0;
    let ghost part = Set::<int>::empty();
    while k < found.len()
        invariant
            data@ == mask@,
            mask@.len() <= usize::MAX,
            k <= found@.len(),
            found@.no_duplicates(),
            forall|a: int| 0 <= a < found@.len() ==> (#[trigger] found@[a]) < mask@.len(),
            part.finite(),
            core == part.len(),
            core <= k,
            forall|j: int|
                #[trigger] part.contains(j) <==> exists|a: int|
                    0 <= a < k && #[trigger] found@[a] == j && mask@[j] >= FOREGROUND_THRESHOLD,
        decreases found@.len() - k,
    {
        let i: usize = found[k];
        let ghost had = part;
        if data[i] >= FOREGROUND_THRESHOLD {
            proof {
                if had.contains(i as int) {
                    let a = choose|a: int|
                        0 <= a < k && #[trigger] found@[a] == i && mask@[i as int] >= FOREGROUND_THRESHOLD;
                    assert(found@[a] == found@[k as int]);
                }
                part = had.insert(i as int);
            }
            core += 1;
        }
        proof {
            assert forall|j: int|
                #[trigger] part.contains(j) <==> exists|a: int|
                    0 <= a < k + 1 && #[trigger] found@[a] == j && mask@[j] >= FOREGROUND_THRESHOLD by {
                if part.contains(j) {
                    if had.contains(j) {
                        let a = choose|a: int|
                            0 <= a < k && #[trigger] found@[a] == j && mask@[j] >= FOREGROUND_THRESHOLD;
                        assert(found@[a] == j);
                    } else {
                        assert(found@[k as int] == j);
                    }
                }
                if exists|a: int|
                    0 <= a < k + 1 && #[trigger] found@[a] == j && mask@[j] >= FOREGROUND_THRESHOLD {
                    let a = choose|a: int|
                        0 <= a < k + 1 && #[trigger] found@[a] == j && mask@[j] >= FOREGROUND_THRESHOLD;
                    if a < k {
                        assert(had.contains(j));
                    }
                }
            }
        }
        k += 1;
    }
    proof {
        let all = core_of(mask@, w, start@);
        assert forall|j: int| part.contains(j) <==> all.contains(j) by {
            if part.contains(j) {
                let a = choose|a: int|
                    0 <= a < k && #[trigger] found@[a] == j && mask@[j] >= FOREGROUND_THRESHOLD;
                assert(found@.contains(j as usize));
                assert(joined(w, true, open, start@, j));
            }
            if all.contains(j) {
                lemma_joined_open(w, true, open, start@, j);
                assert(found@.contains(j as usize));
                let a = choose|a: int| 0 <= a < found@.len() && found@[a] == j as usize;
                assert(found@[a] == j);
            }
        }
        assert(part =~= all);
    }
    core
}

fn clear_components(mask: &Mask, min_area: usize) -> (out: Mask)
    requires
        mask.wf(),
    ensures
        out.wf(),
        out.w() == mask.w(),
        out.h() == mask.h(),
        forall|i: int|
            0 <= i < mask@.len() ==> #[trigger] out@[i] == without_specks(mask@, mask.w() as int, min_area as int, i),
{
    let w: usize = mask.width() as usize;
    let h: usize = mask.height() as usize;
    let open: BitPlane = visible_plane(mask);
    let data: &[u8] = mask.as_slice();
    let mut cleared: Vec<u8> = slice_copy(data);
    let mut visited: BitPlane = BitPlane::new(data.len());
    let ghost m = mask@;
    let ghost wi = w as int;
    let ghost area = min_area as int;
    let mut start: usize = 0;
    while start < data.len()
        invariant
            mask.wf(),
            data@ == m,
            mask@ == m,
            w == mask.w(),
            h == mask.h(),
            wi == w,
            area == min_area,
            m.len() == w * h <= usize::MAX,
            open.wf(),
            open@ == visible(m),
            visited.wf(),
            visited@.len() == m.len(),
            cleared@.len() == m.len(),
            start <= m.len(),
            whole(wi, true, open@, visited@),
            forall|i: int| 0 <= i < start && #[trigger] open@[i] ==> visited@[i],
            forall|i: int|
                0 <= i < m.len() ==> #[trigger] cleared@[i] == if visited@[i] {
                    without_specks(m, wi, area, i)
                } else {
                    m[i]
                },
        decreases m.len() - start,
    {
        if data[start] != 0 && !visited.get(start) {
            let ghost marked = visited@;
            visited.insert(start);
            let seeds: Vec<usize> = vec![start];
            let ghost first = visited@;
            assert(seeds@ =~= seq![start]);
            let found: Vec<usize> = flood(w, h, &open, true, &mut visited, seeds);
            proof {
                lemma_found_component(wi, true, open@, marked, first, visited@, start, found@);
                assert(found@.no_duplicates() && forall|k: int|
                    0 <= k < found@.len() ==> (#[trigger] found@[k]) < m.len()) by {
                    reveal(search_ok);
                }
            }
            let core: usize = core_size(mask, &found, Ghost(start as int));
            proof {
                assert forall|j: int| 0 <= j < m.len() && found@.contains(j as usize) implies core_of(m, wi, j)
                    == core_of(m, wi, start as int) by {
                    assert(joined(wi, true, open@, start as int, j));
                    lemma_core_shared(m, wi, start as int, j);
                }
                assert forall|i: int| 0 <= i < m.len() implies #[trigger] visited@[i] == (marked[i] || found@.contains(i as usize)) by {
                    reveal(search_ok);
                    assert(found@[0] == found@.subrange(0, 1)[0]);
                }
                assert(visited@[start as int]) by {
                    assert(joined(wi, true, open@, start as int, start as int)) by {
                        lemma_joined_here(wi, true, open@, start as int);
                    }
                    assert(found@.contains(start));
                }
                assert forall|i: int| 0 <= i < m.len() && marked[i] implies !found@.contains(i as usize) by {
                    if found@.contains(i as usize) {
                        assert(joined(wi, true, open@, start as int, i));
                        lemma_joined_back(wi, true, open@, start as int, i);
                        assert(marked[start as int]);
                    }
                }
                assert forall|i: int| 0 <= i < m.len() && found@.contains(i as usize) implies m[i] != 0 by {
                    assert(joined(wi, true, open@, start as int, i));
                    lemma_joined_open(wi, true, open@, start as int, i);
                }
            }
            if core < min_area {
                let ghost kept = cleared@;
                let mut k: usize = 0;
                while k < found.len()
                    invariant
                        k <= found@.len(),
                        m.len() <= usize::MAX,
                        cleared@.len() == m.len() == kept.len(),
                        forall|a: int| 0 <= a < found@.len() ==> (#[trigger] found@[a]) < m.len(),
                        forall|i: int|
                            0 <= i < m.len() ==> #[trigger] cleared@[i] == if found@.subrange(0, k as int).contains(
                                i as usize,
                            ) {
                                0
                            } else {
                                kept[i]
                            },
                    decreases found@.len() - k,
                {
                    let ghost had = cleared@;
                    cleared.set(found[k], 0);
                    proof {
                        let shorter = found@.subrange(0, k as int);
                        let longer = found@.subrange(0, k + 1);
                        assert(longer =~= shorter.push(found@[k as int]));
                        assert forall|i: int| 0 <= i < m.len() implies #[trigger] cleared@[i]
                            == if longer.contains(i as usize) { 0 } else { kept[i] } by {
                            if i == found@[k as int] {
                                assert(longer[k as int] == i as usize);
                            } else {
                                assert(cleared@[i] == had[i]);
                                if shorter.contains(i as usize) {
                                    let a = choose|a: int| 0 <= a < shorter.len() && shorter[a] == i as usize;
                                    assert(longer[a] == i as usize);
                                }
                                if longer.contains(i as usize) {
                                    let a = choose|a: int| 0 <= a < longer.len() && longer[a] == i as usize;
                                    assert(shorter[a] == i as usize);
                                }
                            }
                        }
                    }
                    k += 1;
                }
                assert(found@.subrange(0, k as int) =~= found@);
            }
        }
        start += 1;
    }
    proof {
        assert forall|i: int| 0 <= i < m.len() implies #[trigger] cleared@[i] == without_specks(m, wi, area, i) by {
            if !visited@[i] {
                assert(!open@[i]);
            }
        }
    }
    Mask::from_values(mask.width(), mask.height(), cleared)
}

/// The places of one component have the same core.
pub proof fn lemma_core_shared(m: Seq<u8>, w: int, a: int, b: int)
    requires
        joined(w, true, visible(m), a, b),
    ensures
        core_of(m, w, a) == core_of(m, w, b),
{
    let open = visible(m);
    lemma_joined_back(w, true, open, a, b);
    assert forall|j: int| core_of(m, w, a).contains(j) <==> core_of(m, w, b).contains(j) by {
        if joined(w, true, open, a, j) {
            lemma_joined_through(w, true, open, b, a, j);
        }
        if joined(w, true, open, b, j) {
            lemma_joined_through(w, true, open, a, b, j);
        }
    }
    assert(core_of(m, w, a) =~= core_of(m, w, b));
}

/// A vector with the values of a slice.
pub(crate) fn slice_copy(data: &[u8]) -> (r: Vec<u8>)
    ensures
        r@ == data@,
{
    let mut r: Vec<u8> = Vec::with_capacity(data.len());
    let mut i: usize = 0;
    while i < data.len()
        invariant
            i <= data@.len(),
            r@ == data@.subrange(0, i as int),
        decreases data@.len() - i,
    {
        r.push(data[i]);
        i += 1;
        assert(data@.subrange(0, i as int) =~= data@.subrange(0, i - 1).push(data@[i - 1]));
    }
    assert(data@.subrange(0, i as int) =~= data@);
    r
}

} // verus!

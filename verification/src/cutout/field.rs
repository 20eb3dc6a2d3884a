//! The background as a function of the place.
//!
//! Shading and folds of a backdrop change slowly, so a coarse grid of colours is
//! enough. Cells that could not be read are filled from those around them, and
//! between cells colours are interpolated. Colours are in linear light, in whole
//! units.
use vstd::prelude::*;

use crate::cutout::background::{FieldGrid, ResolvedModel};
use crate::cutout::cells::lemma_small_place;
use crate::cutout::fill::{gained, missed, Filling, FILL_SETTLE_ROUNDS};
use crate::cutout::matte::{light_ok, LINEAR_UNIT};
use crate::geometry::{at, lemma_at_bound, on_plane};
use crate::sums::{lemma_span_bound, lemma_span_left, span_sum};
use crate::tally::{lemma_tally_step, tally};

verus! {

/// No blur reaches farther than this.
pub const REACH_CEILING: u32 = 0x10_0000;

/// The blur is not widened more often than this.
pub const MOST_DOUBLINGS: u32 = 16;

/// A cell counts as reached when it has more than this part of full weight.
pub const MIN_FILL_WEIGHT: u64 = 68_719_476;

/// The value at a place of a line; beyond its ends the line goes on as it ends.
pub open spec fn held(line: Seq<u64>, j: int) -> int {
    if j < 0 {
        line[0] as int
    } else if j >= line.len() {
        line[line.len() - 1] as int
    } else {
        line[j] as int
    }
}

/// A line as a function of the place.
pub open spec fn held_line(line: Seq<u64>) -> spec_fn(int) -> int {
    |j: int| held(line, j)
}

/// The mean of the window around a place, rounded down.
pub open spec fn box_mean(line: Seq<u64>, r: int, i: int) -> int {
    span_sum(held_line(line), i - r, i + r + 1) / (2 * r + 1)
}

/// The values lie within full light.
pub open spec fn within_light(s: Seq<u64>) -> bool {
    forall|i: int| 0 <= i < s.len() ==> #[trigger] s[i] <= LINEAR_UNIT
}

/// Replaces each value of a line by the mean of its window.
fn box_line(line: &[u64], radius: u32) -> (out: Vec<u64>)
    requires
        within_light(line@),
        radius <= REACH_CEILING,
    ensures
        out@.len() == line@.len(),
        within_light(out@),
        forall|i: int| 0 <= i < line@.len() ==> #[trigger] out@[i] == box_mean(line@, radius as int, i),
{
    let n: usize = line.len();
    let mut out: Vec<u64> = Vec::with_capacity(n);
    if n == 0 {
        return out;
    }
    let ghost s = line@;
    let ghost g = held_line(s);
    let ghost r = radius as int;
    let ghost unit = LINEAR_UNIT as int;
    proof {
        assert forall|j: int| 0 <= #[trigger] g(j) <= unit by {
            assert(s[0] <= LINEAR_UNIT && s[n - 1] <= LINEAR_UNIT);
            if 0 <= j < n {
                assert(s[j] <= LINEAR_UNIT);
            }
        }
    }
    let window: u64 = 2 * (radius as u64) + 1;
    let mut sum: u64 = 0;
    let mut j: i64 = -(radius as i64);
    while j <= radius as i64
        invariant
            n == s.len(),
            n > 0,
            s == line@,
            g == held_line(s),
            r == radius,
            radius <= REACH_CEILING,
            unit == LINEAR_UNIT,
            forall|k: int| 0 <= #[trigger] g(k) <= unit,
            -r <= j <= r + 1,
            sum == span_sum(g, -r, j as int),
            sum <= unit * (j + r),
        decreases r + 1 - j,
    {
        let v: u64 = if j < 0 { line[0] } else if j as u64 >= n as u64 { line[n - 1] } else { line[j as usize] };
        assert(v == g(j as int));
        assert(unit * (j + 1 + r) == unit * (j + r) + unit) by (nonlinear_arith);
        assert(unit * (j + 1 + r) <= 68_719_476_736 * 0x20_0001) by (nonlinear_arith)
            requires
                unit == 68_719_476_736,
                j + 1 + r <= 0x20_0001,
        ;
        sum = sum + v;
        j = j + 1;
    }
    let mut i: usize = 0;
    while i < n
        invariant
            n == s.len(),
            n > 0,
            s == line@,
            g == held_line(s),
            r == radius,
            radius <= REACH_CEILING,
            unit == LINEAR_UNIT,
            window == 2 * r + 1,
            forall|k: int| 0 <= #[trigger] g(k) <= unit,
            i <= n,
            sum == span_sum(g, i - r, i + r + 1),
            out@.len() == i,
            within_light(out@),
            forall|k: int| 0 <= k < i ==> #[trigger] out@[k] == box_mean(s, r, k),
        decreases n - i,
    {
        proof {
            lemma_span_bound(g, i - r, i + r + 1, unit);
            assert(sum / window <= unit) by (nonlinear_arith)
                requires
                    0 <= sum <= unit * window,
                    0 < window,
            ;
        }
        out.push(sum / window);
        let gone: u64 = if i < radius as usize { line[0] } else { line[i - radius as usize] };
        let come: u64 = if radius as usize >= n - 1 - i { line[n - 1] } else { line[i + radius as usize + 1] };
        proof {
            assert(gone == g(i - r));
            assert(come == g(i + r + 1));
            lemma_span_left(g, i - r, i + r + 1);
            lemma_span_bound(g, i - r + 1, i + r + 1, unit);
            lemma_span_bound(g, i - r + 1, i + r + 2, unit);
            assert(span_sum(g, i + 1 - r, i + 1 + r + 1) == span_sum(g, i + 1 - r, i + r + 1) + g(i + r + 1));
            assert(unit * (2 * r + 1) <= 68_719_476_736 * 0x20_0001) by (nonlinear_arith)
                requires
                    unit == 68_719_476_736,
                    r <= 0x10_0000,
            ;
        }
        sum = sum - gone + come;
        i += 1;
    }
    out
}

/// One row of a plane.
pub open spec fn row_at(p: Seq<u64>, w: int, y: int) -> Seq<u64> {
    Seq::new(w as nat, |x: int| p[at(w, x, y)])
}

/// One column of a plane.
pub open spec fn column_at(p: Seq<u64>, w: int, h: int, x: int) -> Seq<u64> {
    Seq::new(h as nat, |y: int| p[at(w, x, y)])
}

/// A plane with the means of its rows, or of its columns.
pub open spec fn boxed(p: Seq<u64>, w: int, h: int, r: int, rows: bool) -> Seq<u64> {
    Seq::new(
        p.len(),
        |i: int|
            if rows {
                box_mean(row_at(p, w, i / w), r, i % w) as u64
            } else {
                box_mean(column_at(p, w, h, i % w), r, i / w) as u64
            },
    )
}

/// One pass of the blur.
fn box_pass(p: &Vec<u64>, w: usize, h: usize, radius: u32, rows: bool) -> (out: Vec<u64>)
    requires
        p@.len() == w * h,
        within_light(p@),
        radius <= REACH_CEILING,
    ensures
        out@ == boxed(p@, w as int, h as int, radius as int, rows),
        within_light(out@),
{
    let ghost (wi, hi, r) = (w as int, h as int, radius as int);
    let n: usize = p.len();
    let mut out: Vec<u64> = vec![0u64; n];
    let lines: usize = if rows { h } else { w };
    let length: usize = if rows { w } else { h };
    let mut k: usize = 0;
    while k < lines
        invariant
            wi == w,
            hi == h,
            r == radius,
            radius <= REACH_CEILING,
            n == p@.len() == out@.len() == w * h,
            within_light(p@),
            within_light(out@),
            lines == if rows { h } else { w },
            length == if rows { w } else { h },
            k <= lines,
            forall|x: int, y: int|
                on_plane(wi, hi, x, y) && (if rows { y } else { x }) < k ==> #[trigger] out@[at(wi, x, y)] == if rows {
                    box_mean(row_at(p@, wi, y), r, x)
                } else {
                    box_mean(column_at(p@, wi, hi, x), r, y)
                },
        decreases lines - k,
    {
        let mut line: Vec<u64> = Vec::with_capacity(length);
        let mut t: usize = 0;
        while t < length
            invariant
                wi == w,
                hi == h,
                n == p@.len() == w * h,
                within_light(p@),
                lines == if rows { h } else { w },
                length == if rows { w } else { h },
                k < lines,
                t <= length,
                line@.len() == t,
                forall|j: int|
                    0 <= j < t ==> #[trigger] line@[j] == p@[at(
                        wi,
                        if rows { j } else { k as int },
                        if rows { k as int } else { j },
                    )],
                within_light(line@),
            decreases length - t,
        {
            let (x, y): (usize, usize) = if rows { (t, k) } else { (k, t) };
            proof {
                lemma_at_bound(wi, hi, x as int, y as int);
            }
            line.push(p[y * w + x]);
            t += 1;
        }
        proof {
            if rows {
                assert(line@ =~= row_at(p@, wi, k as int));
            } else {
                assert(line@ =~= column_at(p@, wi, hi, k as int));
            }
        }
        let done: Vec<u64> = box_line(line.as_slice(), radius);
        let ghost was = out@;
        let mut t: usize = 0;
        while t < length
            invariant
                wi == w,
                hi == h,
                n == p@.len() == out@.len() == was.len() == w * h,
                lines == if rows { h } else { w },
                length == if rows { w } else { h },
                k < lines,
                t <= length,
                done@.len() == length,
                within_light(done@),
                within_light(out@),
                forall|x: int, y: int|
                    on_plane(wi, hi, x, y) ==> #[trigger] out@[at(wi, x, y)] == if (if rows { y } else { x }) == k
                        && (if rows { x } else { y }) < t {
                        done@[if rows { x } else { y }]
                    } else {
                        was[at(wi, x, y)]
                    },
            decreases length - t,
        {
            let (x, y): (usize, usize) = if rows { (t, k) } else { (k, t) };
            proof {
                lemma_at_bound(wi, hi, x as int, y as int);
            }
            let ghost had = out@;
            out.set(y * w + x, done[t]);
            proof {
                crate::cutout::chamfer::lemma_updated(had, out@, wi, hi, x as int, y as int, done@[t as int]);
            }
            t += 1;
        }
        proof {
            assert forall|x: int, y: int| on_plane(wi, hi, x, y) && (if rows { y } else { x }) < k + 1 implies #[trigger] out@[at(
                wi,
                x,
                y,
            )] == if rows {
                box_mean(row_at(p@, wi, y), r, x)
            } else {
                box_mean(column_at(p@, wi, hi, x), r, y)
            } by {
                let j = if rows { x } else { y };
                if (if rows { y } else { x }) == k {
                    assert(done@[j] == box_mean(line@, r, j));
                } else {
                    assert(out@[at(wi, x, y)] == was[at(wi, x, y)]);
                }
            }
        }
        k += 1;
    }
    proof {
        let goal = boxed(p@, wi, hi, r, rows);
        assert forall|i: int| 0 <= i < n implies out@[i] == goal[i] by {
            lemma_small_place(wi, hi, i);
            assert(out@[at(wi, i % wi, i / wi)] == out@[i]);
        }
        assert(out@ =~= goal);
    }
    out
}

/// Along rows, then along columns.
pub open spec fn both_ways(p: Seq<u64>, w: int, h: int, r: int) -> Seq<u64> {
    boxed(boxed(p, w, h, r, true), w, h, r, false)
}

/// A blur close to that of a bell curve: means of windows, three times over.
pub open spec fn blurred(p: Seq<u64>, w: int, h: int, r: int) -> Seq<u64> {
    if r == 0 {
        p
    } else {
        both_ways(both_ways(both_ways(p, w, h, r), w, h, r), w, h, r)
    }
}

/// Blurs a plane.
pub fn gaussian3(p: Vec<u64>, w: usize, h: usize, radius: u32) -> (out: Vec<u64>)
    requires
        p@.len() == w * h,
        within_light(p@),
        radius <= REACH_CEILING,
    ensures
        out@ == blurred(p@, w as int, h as int, radius as int),
        within_light(out@),
        out@.len() == p@.len(),
{
    if radius == 0 {
        return p;
    }
    let a: Vec<u64> = box_pass(&p, w, h, radius, true);
    let a: Vec<u64> = box_pass(&a, w, h, radius, false);
    let b: Vec<u64> = box_pass(&a, w, h, radius, true);
    let b: Vec<u64> = box_pass(&b, w, h, radius, false);
    let c: Vec<u64> = box_pass(&b, w, h, radius, true);
    box_pass(&c, w, h, radius, false)
}

/// `v` is the width of the window for a bell curve of spread `s / 32`: the nearest
/// integer to the root of `4 (s / 32)^2 + 1`.
pub open spec fn is_window(s: int, v: int) -> bool {
    1 <= v && 64 * ((2 * v - 1) * (2 * v - 1)) <= s * s + 256 < 64 * ((2 * v + 1) * (2 * v + 1))
}

/// The width of the window, of which there is one.
pub open spec fn window_width(s: int) -> int {
    choose|v: int| is_window(s, v)
}

proof fn lemma_window(s: int, v: int)
    requires
        is_window(s, v),
    ensures
        window_width(s) == v,
{
    let u = window_width(s);
    assert(is_window(s, u));
    assert(u == v) by (nonlinear_arith)
        requires
            1 <= u,
            1 <= v,
            64 * ((2 * v - 1) * (2 * v - 1)) <= s * s + 256 < 64 * ((2 * v + 1) * (2 * v + 1)),
            64 * ((2 * u - 1) * (2 * u - 1)) <= s * s + 256 < 64 * ((2 * u + 1) * (2 * u + 1)),
    ;
}

/// A number doubled so often.
pub open spec fn doubled(v: int, times: int) -> int
    decreases times,
{
    if times <= 0 {
        v
    } else {
        2 * doubled(v, times - 1)
    }
}

/// Few doublings of a small number stay small.
proof fn lemma_doubled(v: int, times: int)
    requires
        0 <= v <= 256,
        0 <= times <= 16,
    ensures
        0 <= doubled(v, times) <= 0x100_0000,
{
    lemma_doubled_more(v, times);
    reveal_with_fuel(doubled, 18);
}

proof fn lemma_doubled_more(v: int, times: int)
    requires
        0 <= v <= 256,
        0 <= times <= 16,
    ensures
        0 <= doubled(v, times) <= doubled(256, times) <= doubled(256, 16),
    decreases 16 - times,
{
    lemma_doubled_order(v, times);
    if times < 16 {
        lemma_doubled_more(v, times + 1);
        lemma_doubled_order(256, times);
    }
}

proof fn lemma_doubled_order(v: int, times: int)
    requires
        0 <= v <= 256,
        0 <= times,
    ensures
        0 <= doubled(v, times) <= doubled(256, times),
    decreases times,
{
    if times > 0 {
        lemma_doubled_order(v, times - 1);
    }
}

/// The radius of the blur on a grid with the given long side, widened so often.
pub open spec fn reach(long: int, doublings: int) -> int {
    window_width(doubled(long, if doublings < MOST_DOUBLINGS { doublings } else { MOST_DOUBLINGS as int })) / 2
}

fn odd_square(v: u64) -> (r: u64)
    requires
        1 <= v <= 0x20_0000,
    ensures
        r == 64 * ((2 * v - 1) * (2 * v - 1)),
{
    assert(0 <= (2 * v - 1) * (2 * v - 1) <= 0x1000_0000_0000) by (nonlinear_arith)
        requires
            1 <= v <= 0x20_0000,
    ;
    64 * ((2 * v - 1) * (2 * v - 1))
}

fn reach_of(long: u32, doublings: u32) -> (r: u32)
    requires
        long <= 256,
    ensures
        r == reach(long as int, doublings as int),
        r <= REACH_CEILING,
{
    let times: u32 = if doublings < MOST_DOUBLINGS { doublings } else { MOST_DOUBLINGS };
    let mut s: u64 = long as u64;
    let mut d: u32 = 0;
    while d < times
        invariant
            d <= times <= 16,
            long <= 256,
            s == doubled(long as int, d as int),
        decreases times - d,
    {
        proof {
            lemma_doubled(long as int, d + 1);
        }
        s = 2 * s;
        d = d + 1;
    }
    proof {
        lemma_doubled(long as int, d as int);
    }
    assert(s * s <= 0x1_0000_0000_0000) by (nonlinear_arith)
        requires
            s <= 0x100_0000,
    ;
    let goal: u64 = s * s + 256;
    let mut lo: u64 = 1;
    let mut hi: u64 = 0x20_0000;
    proof {
        assert((2 * 1 - 1) * (2 * 1 - 1) == 1int) by (nonlinear_arith);
        assert((2 * 0x20_0000 - 1) * (2 * 0x20_0000 - 1) == 0x3f_ffff * 0x3f_ffff) by (nonlinear_arith);
    }
    while lo + 1 < hi
        invariant
            1 <= lo < hi <= 0x20_0000,
            64 * ((2 * lo - 1) * (2 * lo - 1)) <= goal < 64 * ((2 * hi - 1) * (2 * hi - 1)),
        decreases hi - lo,
    {
        let mid: u64 = lo + (hi - lo) / 2;
        if odd_square(mid) <= goal {
            lo = mid;
        } else {
            hi = mid;
        }
    }
    proof {
        assert(2 * (lo + 1) - 1 == 2 * lo + 1);
        assert(is_window(s as int, lo as int));
        lemma_window(s as int, lo as int);
    }
    (lo / 2) as u32
}

/// A plane where it has a colour, and nothing elsewhere.
pub open spec fn masked(p: Seq<u64>, covered: Seq<bool>) -> Seq<u64> {
    Seq::new(p.len(), |i: int| if covered[i] { p[i] } else { 0 })
}

/// Full weight where there is a colour.
pub open spec fn weights(covered: Seq<bool>) -> Seq<u64> {
    Seq::new(covered.len(), |i: int| if covered[i] { LINEAR_UNIT } else { 0 })
}

/// The cells that a blur of the weights reaches.
pub open spec fn reached(covered: Seq<bool>, w: int, h: int, r: int) -> Seq<bool> {
    Seq::new(covered.len(), |i: int| blurred(weights(covered), w, h, r)[i] > MIN_FILL_WEIGHT)
}

/// A part of full light by its weight, held within full light.
pub open spec fn weighed(num: int, den: int) -> int {
    let v = (num * LINEAR_UNIT) / den;
    if v < LINEAR_UNIT {
        v
    } else {
        LINEAR_UNIT as int
    }
}

/// A plane after one round: what was read stays, and what the blur reaches gets
/// the blurred colour by the blurred weight.
pub open spec fn refilled(p: Seq<u64>, known: Seq<bool>, covered: Seq<bool>, w: int, h: int, r: int) -> Seq<u64> {
    let (num, den) = (blurred(masked(p, covered), w, h, r), blurred(weights(covered), w, h, r));
    Seq::new(
        p.len(),
        |i: int|
            if !known[i] && reached(covered, w, h, r)[i] {
                weighed(num[i] as int, den[i] as int) as u64
            } else {
                p[i]
            },
    )
}

/// Nothing is left to do.
pub open spec fn is_done(known: Seq<bool>, calm: int, made: int, most: int) -> bool {
    ||| forall|i: int| 0 <= i < known.len() ==> #[trigger] known[i]
    ||| calm == FILL_SETTLE_ROUNDS
    ||| made == most
}

/// The cells that have a colour after one more round.
pub open spec fn covered_next(covered: Seq<bool>, reached: Seq<bool>) -> Seq<bool> {
    Seq::new(reached.len(), |i: int| covered[i] || reached[i])
}

/// The planes and the cells that have a colour when all rounds have been made.
pub open spec fn fill_run(
    w: int,
    h: int,
    known: Seq<bool>,
    planes: (Seq<u64>, Seq<u64>, Seq<u64>),
    covered: Seq<bool>,
    widened: int,
    calm: int,
    made: int,
    most: int,
) -> ((Seq<u64>, Seq<u64>, Seq<u64>), Seq<bool>)
    decreases most - made,
{
    if is_done(known, calm, made, most) || made >= most {
        (planes, covered)
    } else {
        let r = reach(if w < h { h } else { w }, widened);
        let hit = reached(covered, w, h, r);
        fill_run(
            w,
            h,
            known,
            (
                refilled(planes.0, known, covered, w, h, r),
                refilled(planes.1, known, covered, w, h, r),
                refilled(planes.2, known, covered, w, h, r),
            ),
            covered_next(covered, hit),
            widened + if missed(known, hit) && !gained(covered, hit) { 1int } else { 0 },
            calm + if missed(known, hit) { 0int } else { 1 },
            made + 1,
            most,
        )
    }
}

/// One plane of a grid: the colours that were read, and nothing elsewhere.
pub open spec fn read_plane(values: Seq<Option<[u64; 3]>>, k: int) -> Seq<u64> {
    Seq::new(
        values.len(),
        |i: int|
            match values[i] {
                Some(c) => c[k],
                None => 0,
            },
    )
}

/// The cells that were read.
pub open spec fn read_cells(values: Seq<Option<[u64; 3]>>) -> Seq<bool> {
    Seq::new(values.len(), |i: int| values[i] is Some)
}

/// How many rounds are made at most.
pub open spec fn most_rounds(w: int, h: int) -> int {
    let long = if w < h { h } else { w };
    if long < FILL_SETTLE_ROUNDS {
        FILL_SETTLE_ROUNDS as int
    } else {
        long
    }
}

/// A filled plane: what the rounds have left without a colour gets that of the
/// background as a whole.
pub open spec fn filled(w: int, h: int, values: Seq<Option<[u64; 3]>>, fallback: [u64; 3], k: int) -> Seq<u64> {
    let known = read_cells(values);
    let (planes, covered) = fill_run(
        w,
        h,
        known,
        (read_plane(values, 0), read_plane(values, 1), read_plane(values, 2)),
        known,
        0,
        0,
        0,
        most_rounds(w, h),
    );
    let plane = if k == 0 { planes.0 } else if k == 1 { planes.1 } else { planes.2 };
    Seq::new(values.len(), |i: int| if covered[i] { plane[i] } else { fallback[k] })
}

fn plane_of(values: &[Option<[u64; 3]>], k: usize) -> (r: Vec<u64>)
    requires
        k < 3,
        values_lit(values@),
    ensures
        r@ == read_plane(values@, k as int),
        within_light(r@),
{
    let n: usize = values.len();
    let mut r: Vec<u64> = Vec::with_capacity(n);
    let mut i: usize = 0;
    while i < n
        invariant
            n == values@.len(),
            k < 3,
            values_lit(values@),
            i <= n,
            r@.len() == i,
            forall|j: int| 0 <= j < i ==> #[trigger] r@[j] == read_plane(values@, k as int)[j],
            within_light(r@),
        decreases n - i,
    {
        let v: u64 = match values[i] {
            Some(c) => c[k],
            None => 0,
        };
        assert(colour_lit(values@[i as int]));
        r.push(v);
        i += 1;
    }
    assert(r@ =~= read_plane(values@, k as int));
    r
}

/// The colours lie within full light.
pub open spec fn values_lit(values: Seq<Option<[u64; 3]>>) -> bool {
    forall|i: int| 0 <= i < values.len() ==> colour_lit(#[trigger] values[i])
}

/// The colour, if there is one, lies within full light.
pub open spec fn colour_lit(v: Option<[u64; 3]>) -> bool {
    v matches Some(c) ==> c[0] <= LINEAR_UNIT && c[1] <= LINEAR_UNIT && c[2] <= LINEAR_UNIT
}

fn masked_plane(p: &Vec<u64>, covered: &[bool]) -> (r: Vec<u64>)
    requires
        covered@.len() == p@.len(),
        within_light(p@),
    ensures
        r@ == masked(p@, covered@),
        within_light(r@),
{
    let n: usize = p.len();
    let mut r: Vec<u64> = Vec::with_capacity(n);
    let mut i: usize = 0;
    while i < n
        invariant
            n == p@.len() == covered@.len(),
            within_light(p@),
            i <= n,
            r@.len() == i,
            forall|j: int| 0 <= j < i ==> #[trigger] r@[j] == masked(p@, covered@)[j],
            within_light(r@),
        decreases n - i,
    {
        assert(p@[i as int] <= LINEAR_UNIT);
        r.push(if covered[i] { p[i] } else { 0 });
        i += 1;
    }
    assert(r@ =~= masked(p@, covered@));
    r
}

fn weight_plane(covered: &[bool]) -> (r: Vec<u64>)
    ensures
        r@ == weights(covered@),
        within_light(r@),
{
    let n: usize = covered.len();
    let mut r: Vec<u64> = Vec::with_capacity(n);
    let mut i: usize = 0;
    while i < n
        invariant
            n == covered@.len(),
            i <= n,
            r@.len() == i,
            forall|j: int| 0 <= j < i ==> #[trigger] r@[j] == weights(covered@)[j],
            within_light(r@),
        decreases n - i,
    {
        r.push(if covered[i] { LINEAR_UNIT } else { 0 });
        i += 1;
    }
    assert(r@ =~= weights(covered@));
    r
}

fn weigh(num: u64, den: u64) -> (r: u64)
    requires
        0 < den,
        num <= LINEAR_UNIT,
    ensures
        r == weighed(num as int, den as int),
        r <= LINEAR_UNIT,
{
    let v: u128 = (num as u128) * (LINEAR_UNIT as u128) / (den as u128);
    if v < LINEAR_UNIT as u128 {
        v as u64
    } else {
        LINEAR_UNIT
    }
}

/// One round on one plane.
fn refill(p: Vec<u64>, known: &Vec<bool>, covered: &[bool], den: &Vec<u64>, w: usize, h: usize, r: u32) -> (out: Vec<u64>)
    requires
        p@.len() == w * h,
        known@.len() == p@.len(),
        covered@.len() == p@.len(),
        within_light(p@),
        r <= REACH_CEILING,
        den@ == blurred(weights(covered@), w as int, h as int, r as int),
        den@.len() == p@.len(),
    ensures
        out@ == refilled(p@, known@, covered@, w as int, h as int, r as int),
        within_light(out@),
{
    let n: usize = p.len();
    let num: Vec<u64> = gaussian3(masked_plane(&p, covered), w, h, r);
    let ghost goal = refilled(p@, known@, covered@, w as int, h as int, r as int);
    let mut out: Vec<u64> = Vec::with_capacity(n);
    let mut i: usize = 0;
    while i < n
        invariant
            n == p@.len() == known@.len() == covered@.len() == den@.len() == num@.len(),
            within_light(p@),
            within_light(num@),
            den@ == blurred(weights(covered@), w as int, h as int, r as int),
            num@ == blurred(masked(p@, covered@), w as int, h as int, r as int),
            goal == refilled(p@, known@, covered@, w as int, h as int, r as int),
            i <= n,
            out@.len() == i,
            forall|j: int| 0 <= j < i ==> #[trigger] out@[j] == goal[j],
            within_light(out@),
        decreases n - i,
    {
        assert(p@[i as int] <= LINEAR_UNIT && num@[i as int] <= LINEAR_UNIT);
        let v: u64 = if !known[i] && den[i] > MIN_FILL_WEIGHT { weigh(num[i], den[i]) } else { p[i] };
        out.push(v);
        i += 1;
    }
    assert(out@ =~= goal);
    out
}

fn reached_cells(den: &Vec<u64>, covered: Ghost<Seq<bool>>, w: Ghost<int>, h: Ghost<int>, r: Ghost<int>) -> (hit: Vec<bool>)
    requires
        den@ == blurred(weights(covered@), w@, h@, r@),
        den@.len() == covered@.len(),
    ensures
        hit@ == reached(covered@, w@, h@, r@),
{
    let n: usize = den.len();
    let mut hit: Vec<bool> = Vec::with_capacity(n);
    let mut i: usize = 0;
    while i < n
        invariant
            n == den@.len() == covered@.len(),
            den@ == blurred(weights(covered@), w@, h@, r@),
            i <= n,
            hit@.len() == i,
            forall|j: int| 0 <= j < i ==> #[trigger] hit@[j] == reached(covered@, w@, h@, r@)[j],
        decreases n - i,
    {
        hit.push(den[i] > MIN_FILL_WEIGHT);
        i += 1;
    }
    assert(hit@ =~= reached(covered@, w@, h@, r@));
    hit
}

/// Where a plane has no colour yet, that of the background as a whole.
fn settle(p: &Vec<u64>, covered: &[bool], fallback: u64) -> (r: Vec<u64>)
    requires
        covered@.len() == p@.len(),
        within_light(p@),
        fallback <= LINEAR_UNIT,
    ensures
        r@ == Seq::new(p@.len(), |i: int| if covered@[i] { p@[i] } else { fallback }),
        within_light(r@),
{
    let n: usize = p.len();
    let mut r: Vec<u64> = Vec::with_capacity(n);
    let mut i: usize = 0;
    while i < n
        invariant
            n == p@.len() == covered@.len(),
            within_light(p@),
            fallback <= LINEAR_UNIT,
            i <= n,
            r@.len() == i,
            forall|j: int| 0 <= j < i ==> #[trigger] r@[j] == if covered@[j] { p@[j] } else { fallback },
            within_light(r@),
        decreases n - i,
    {
        assert(p@[i as int] <= LINEAR_UNIT);
        r.push(if covered[i] { p[i] } else { fallback });
        i += 1;
    }
    assert(r@ =~= Seq::new(p@.len(), |i: int| if covered@[i] { p@[i] } else { fallback }));
    r
}

/// Fills the cells that could not be read.
#[verifier::rlimit(40)]
pub fn fill_unknown(cols: u32, rows: u32, values: &[Option<[u64; 3]>], fallback: [u64; 3]) -> (r: (Vec<u64>, Vec<u64>, Vec<
    u64,
>))
    requires
        cols <= 256,
        rows <= 256,
        values@.len() == cols * rows,
        values_lit(values@),
        forall|k: int| 0 <= k < 3 ==> #[trigger] fallback[k] <= LINEAR_UNIT,
    ensures
        r.0@ == filled(cols as int, rows as int, values@, fallback, 0),
        r.1@ == filled(cols as int, rows as int, values@, fallback, 1),
        r.2@ == filled(cols as int, rows as int, values@, fallback, 2),
        within_light(r.0@),
        within_light(r.1@),
        within_light(r.2@),
{
    let (w, h): (usize, usize) = (cols as usize, rows as usize);
    let ghost (wi, hi) = (w as int, h as int);
    let n: usize = values.len();
    let mut known: Vec<bool> = Vec::with_capacity(n);
    let mut i: usize = 0;
    while i < n
        invariant
            n == values@.len(),
            i <= n,
            known@.len() == i,
            forall|j: int| 0 <= j < i ==> #[trigger] known@[j] == (values@[j] is Some),
        decreases n - i,
    {
        known.push(values[i].is_some());
        i += 1;
    }
    let ghost read = read_cells(values@);
    assert(known@ =~= read);
    let mut red: Vec<u64> = plane_of(values, 0);
    let mut green: Vec<u64> = plane_of(values, 1);
    let mut blue: Vec<u64> = plane_of(values, 2);
    let copy: Vec<bool> = known.clone();
    assert(copy@ =~= known@);
    let mut state: Filling = Filling::start(cols, rows, copy);
    let long: u32 = if cols < rows { rows } else { cols };
    let ghost end = fill_run(wi, hi, read, (red@, green@, blue@), read, 0, 0, 0, most_rounds(wi, hi));
    while !state.is_over()
        invariant
            w == cols,
            h == rows,
            wi == w,
            hi == h,
            cols <= 256,
            rows <= 256,
            long == if cols < rows { rows } else { cols },
            n == values@.len() == wi * hi,
            known@ == read,
            read.len() == n,
            state.wf(),
            state.known() == read,
            state.most() == most_rounds(wi, hi),
            red@.len() == n,
            green@.len() == n,
            blue@.len() == n,
            within_light(red@),
            within_light(green@),
            within_light(blue@),
            end == fill_run(
                wi,
                hi,
                read,
                (red@, green@, blue@),
                state.covered(),
                state.widened() as int,
                state.calm() as int,
                state.made() as int,
                state.most() as int,
            ),
        decreases state.most() - state.made(),
    {
        let ghost (covered, widened, calm, made) = (state.covered(), state.widened(), state.calm(), state.made());
        let ghost planes = (red@, green@, blue@);
        let r: u32 = reach_of(long, state.doublings());
        let hit: Vec<bool>;
        {
            let has: &[bool] = state.has_colour();
            let den: Vec<u64> = gaussian3(weight_plane(has), w, h, r);
            red = refill(red, &known, has, &den, w, h, r);
            green = refill(green, &known, has, &den, w, h, r);
            blue = refill(blue, &known, has, &den, w, h, r);
            hit = reached_cells(&den, Ghost(covered), Ghost(wi), Ghost(hi), Ghost(r as int));
        }
        state.step(hit.as_slice());
        proof {
            assert(!is_done(read, calm as int, made as int, state.most() as int));
            assert(state.covered() =~= covered_next(covered, hit@));
        }
    }
    proof {
        assert(is_done(read, state.calm() as int, state.made() as int, state.most() as int));
    }
    let has: &[bool] = state.has_colour();
    assert(fallback[0] <= LINEAR_UNIT && fallback[1] <= LINEAR_UNIT && fallback[2] <= LINEAR_UNIT);
    let a: Vec<u64> = settle(&red, has, fallback[0]);
    let b: Vec<u64> = settle(&green, has, fallback[1]);
    let c: Vec<u64> = settle(&blue, has, fallback[2]);
    proof {
        assert(a@ =~= filled(wi, hi, values@, fallback, 0));
        assert(b@ =~= filled(wi, hi, values@, fallback, 1));
        assert(c@ =~= filled(wi, hi, values@, fallback, 2));
    }
    (a, b, c)
}

/// A field over an image: a colour for each cell of a grid.
pub struct FieldCells {
    cols: u32,
    rows: u32,
    width: u32,
    height: u32,
    red: Vec<u64>,
    green: Vec<u64>,
    blue: Vec<u64>,
}

/// The background: one colour, or a field around it.
pub struct BackgroundField {
    rgb: [u8; 3],
    grid: Option<FieldCells>,
}

impl FieldCells {
    pub closed spec fn cols(&self) -> int {
        self.cols as int
    }

    pub closed spec fn rows(&self) -> int {
        self.rows as int
    }

    pub closed spec fn width(&self) -> int {
        self.width as int
    }

    pub closed spec fn height(&self) -> int {
        self.height as int
    }

    /// One channel of the cells.
    pub closed spec fn plane(&self, k: int) -> Seq<u64> {
        if k == 0 {
            self.red@
        } else if k == 1 {
            self.green@
        } else {
            self.blue@
        }
    }

    pub open spec fn wf(&self) -> bool {
        &&& 0 < self.cols() <= 256
        &&& 0 < self.rows() <= 256
        &&& 0 < self.width() <= u32::MAX
        &&& 0 < self.height() <= u32::MAX
        &&& forall|k: int| 0 <= k < 3 ==> (#[trigger] self.plane(k)).len() == self.cols() * self.rows() && within_light(
            self.plane(k),
        )
    }
}

/// A place among `n`.
pub open spec fn held_at(v: int, n: int) -> int {
    if v <= 0 {
        0
    } else if v < n {
        v
    } else {
        n - 1
    }
}

/// Where a pixel lies among the cells of a side: the cell before it and how far
/// it is past the middle of that cell, in parts of twice the side.
pub open spec fn cell_before(x: int, cells: int, side: int) -> (int, int) {
    let n = (2 * x + 1) * cells - side;
    (n / (2 * side), n % (2 * side))
}

/// A value between two, `t` parts of `of` from the first to the second, times `of`.
pub open spec fn between(a: int, b: int, t: int, of: int) -> int {
    a * (of - t) + b * t
}

/// The value of a plane at a pixel, interpolated between the four cells around it
/// and rounded down.
pub open spec fn interpolated(p: Seq<u64>, cols: int, rows: int, w: int, h: int, x: int, y: int) -> int {
    let (cx, tx) = cell_before(x, cols, w);
    let (cy, ty) = cell_before(y, rows, h);
    let (x0, x1) = (held_at(cx, cols), held_at(cx + 1, cols));
    let (y0, y1) = (held_at(cy, rows), held_at(cy + 1, rows));
    let top = between(p[at(cols, x0, y0)] as int, p[at(cols, x1, y0)] as int, tx, 2 * w);
    let bottom = between(p[at(cols, x0, y1)] as int, p[at(cols, x1, y1)] as int, tx, 2 * w);
    between(top, bottom, ty, 2 * h) / ((2 * w) * (2 * h))
}

/// The place of a pixel among the cells of a side.
fn locate(x: u32, cells: u32, side: u32) -> (r: (usize, usize, u64))
    requires
        0 < side,
        0 < cells <= 256,
    ensures
        r.0 == held_at(cell_before(x as int, cells as int, side as int).0, cells as int),
        r.1 == held_at(cell_before(x as int, cells as int, side as int).0 + 1, cells as int),
        r.2 == cell_before(x as int, cells as int, side as int).1,
        r.0 < cells,
        r.1 < cells,
        r.2 < 2 * side,
{
    let ghost n = (2 * x + 1) * cells - side;
    let of: i64 = 2 * (side as i64);
    proof {
        assert(0 <= (2 * x + 1) * cells <= 0x200_0000_0000) by (nonlinear_arith)
            requires
                0 <= x <= 0xffff_ffff,
                0 < cells <= 256,
        ;
        assert(-1 <= n / (2 * side) && 0 <= n % (2 * side) < 2 * side && n == (2 * side) * (n / (2 * side)) + n % (2
            * side)) by (nonlinear_arith)
            requires
                0 < side,
                -(side as int) <= n,
        ;
    }
    let m: i64 = (2 * (x as i64) + 1) * (cells as i64) - side as i64;
    if m < 0 {
        proof {
            assert(n / (2 * side) == -1) by (nonlinear_arith)
                requires
                    0 < side,
                    -(side as int) <= n < 0,
            ;
            assert((2 * side) * (-1) == -2 * side) by (nonlinear_arith);
            assert(n % (2 * side) == n + 2 * side);
        }
        (0, 0, (m + of) as u64)
    } else {
        let c: i64 = m / of;
        let t: i64 = m % of;
        let top: i64 = cells as i64 - 1;
        (
            (if c < top { c } else { top }) as usize,
            (if c + 1 < top { c + 1 } else { top }) as usize,
            t as u64,
        )
    }
}

/// A value between two.
fn blend(a: u128, b: u128, t: u64, of: u64, Ghost(top): Ghost<int>) -> (r: u128)
    requires
        t < of <= 0x2_0000_0000,
        a <= top,
        b <= top,
        top <= 0x8_0000_0000_0000_0000_0000,
    ensures
        r == between(a as int, b as int, t as int, of as int),
        r <= top * of,
{
    proof {
        assert(0 <= a * (of - t) && 0 <= b * t && a * (of - t) + b * t <= top * of) by (nonlinear_arith)
            requires
                0 <= t < of,
                0 <= a <= top,
                0 <= b <= top,
        ;
        assert(top * of <= 0x8_0000_0000_0000_0000_0000 * 0x2_0000_0000) by (nonlinear_arith)
            requires
                0 <= top <= 0x8_0000_0000_0000_0000_0000,
                0 <= of <= 0x2_0000_0000,
        ;
    }
    a * ((of - t) as u128) + b * (t as u128)
}

impl FieldCells {
    fn sample(&self, p: &Vec<u64>, x: u32, y: u32) -> (r: u64)
        requires
            self.wf(),
            p@.len() == self.cols() * self.rows(),
            within_light(p@),
        ensures
            r == interpolated(p@, self.cols(), self.rows(), self.width(), self.height(), x as int, y as int),
            r <= LINEAR_UNIT,
    {
        let (x0, x1, tx): (usize, usize, u64) = locate(x, self.cols, self.width);
        let (y0, y1, ty): (usize, usize, u64) = locate(y, self.rows, self.height);
        let w: usize = self.cols as usize;
        let ghost (wi, hi) = (self.cols as int, self.rows as int);
        proof {
            lemma_at_bound(wi, hi, x0 as int, y0 as int);
            lemma_at_bound(wi, hi, x1 as int, y0 as int);
            lemma_at_bound(wi, hi, x0 as int, y1 as int);
            lemma_at_bound(wi, hi, x1 as int, y1 as int);
            assert(wi * hi <= 65_536) by (nonlinear_arith)
                requires
                    0 < wi <= 256,
                    0 < hi <= 256,
            ;
        }
        let a: u64 = p[y0 * w + x0];
        let b: u64 = p[y0 * w + x1];
        let c: u64 = p[y1 * w + x0];
        let d: u64 = p[y1 * w + x1];
        assert(a <= LINEAR_UNIT && b <= LINEAR_UNIT && c <= LINEAR_UNIT && d <= LINEAR_UNIT);
        let of_x: u64 = 2 * (self.width as u64);
        let of_y: u64 = 2 * (self.height as u64);
        let ghost unit = LINEAR_UNIT as int;
        let top: u128 = blend(a as u128, b as u128, tx, of_x, Ghost(unit));
        let bottom: u128 = blend(c as u128, d as u128, tx, of_x, Ghost(unit));
        proof {
            assert(unit * of_x <= 0x8_0000_0000_0000_0000_0000) by (nonlinear_arith)
                requires
                    unit == 68_719_476_736,
                    of_x <= 0x2_0000_0000,
            ;
        }
        let all: u128 = blend(top, bottom, ty, of_y, Ghost(unit * of_x));
        proof {
            assert(0 < of_x * of_y <= 0x4_0000_0000_0000_0000) by (nonlinear_arith)
                requires
                    0 < of_x <= 0x2_0000_0000,
                    0 < of_y <= 0x2_0000_0000,
            ;
            let cells = of_x * of_y;
            assert(unit * of_x * of_y == unit * cells) by (nonlinear_arith)
                requires
                    cells == of_x * of_y,
            ;
            assert(all as int / cells <= unit) by (nonlinear_arith)
                requires
                    0 <= all <= unit * cells,
                    0 < cells,
            ;
        }
        (all / ((of_x as u128) * (of_y as u128))) as u64
    }
}

/// How many of the steps between 8-bit values a value has taken.
pub open spec fn steps_taken(steps: Seq<u64>, v: int) -> Seq<bool> {
    Seq::new(steps.len(), |i: int| v >= steps[i])
}

/// The 8-bit value of a value in linear light: how many of the 255 steps it has
/// taken.
pub fn eight_bits(steps: &[u64], v: u64) -> (r: u8)
    requires
        steps@.len() == 255,
    ensures
        r == tally(steps_taken(steps@, v as int)),
{
    let ghost s = steps_taken(steps@, v as int);
    let mut r: u8 = 0;
    let mut i: usize = 0;
    assert(s.take(0) =~= Seq::empty());
    while i < 255
        invariant
            steps@.len() == 255,
            s == steps_taken(steps@, v as int),
            i <= 255,
            r == tally(s.take(i as int)),
            r <= i,
        decreases 255 - i,
    {
        proof {
            lemma_tally_step(s, i as int);
        }
        if v >= steps[i] {
            r += 1;
        }
        i += 1;
    }
    assert(s.take(255) =~= s);
    r
}

impl BackgroundField {
    pub closed spec fn base(&self) -> [u8; 3] {
        self.rgb
    }

    pub closed spec fn cells(&self) -> Option<FieldCells> {
        self.grid
    }

    pub open spec fn wf(&self) -> bool {
        self.cells() matches Some(g) ==> g.wf()
    }

    /// One colour everywhere.
    pub fn flat(rgb: [u8; 3]) -> (r: Self)
        ensures
            r.wf(),
            r.base() == rgb,
            r.cells() is None,
    {
        BackgroundField { rgb, grid: None }
    }

    pub fn is_flat(&self) -> (r: bool)
        ensures
            r == self.cells() is None,
    {
        self.grid.is_none()
    }

    /// The colour of the background as a whole.
    pub fn rgb(&self) -> (r: [u8; 3])
        ensures
            r == self.base(),
    {
        self.rgb
    }

    /// Channel `k` of the field at a pixel.
    pub open spec fn light(&self, k: int, x: int, y: int) -> int {
        let g = self.cells().unwrap();
        interpolated(g.plane(k), g.cols(), g.rows(), g.width(), g.height(), x, y)
    }

    /// The model that takes effect: where no field could be read it is one colour,
    /// whatever was asked for.
    pub fn model(&self) -> (r: ResolvedModel)
        ensures
            r == if self.cells() is None {
                ResolvedModel::Flat
            } else {
                ResolvedModel::Field
            },
    {
        if self.is_flat() {
            ResolvedModel::Flat
        } else {
            ResolvedModel::Field
        }
    }

    /// The colour at a pixel in linear light; beyond the image that of its edge goes
    /// on. One colour has none: whoever works
    /// with it has a table of their own, and is not to get a value that is a hair off.
    pub fn linear_at(&self, x: u32, y: u32) -> (r: Option<[u64; 3]>)
        requires
            self.wf(),
        ensures
            r is Some == self.cells() is Some,
            r matches Some(c) ==> forall|k: int|
                0 <= k < 3 ==> #[trigger] c[k] == self.light(k, x as int, y as int) && c[k] <= LINEAR_UNIT,
    {
        match &self.grid {
            None => None,
            Some(g) => {
                proof {
                    assert(g.plane(0).len() == g.cols() * g.rows() && within_light(g.plane(0)));
                    assert(g.plane(1).len() == g.cols() * g.rows() && within_light(g.plane(1)));
                    assert(g.plane(2).len() == g.cols() * g.rows() && within_light(g.plane(2)));
                }
                let c: [u64; 3] = [g.sample(&g.red, x, y), g.sample(&g.green, x, y), g.sample(&g.blue, x, y)];
                Some(c)
            },
        }
    }

    /// The colour at a pixel in 8 bits. `steps` holds the 255 values of linear
    /// light at which the next 8-bit value begins.
    pub fn rgb_at(&self, x: u32, y: u32, steps: &[u64]) -> (r: [u8; 3])
        requires
            self.wf(),
            steps@.len() == 255,
        ensures
            self.cells() is None ==> r == self.base(),
            self.cells() is Some ==> forall|k: int|
                0 <= k < 3 ==> #[trigger] r[k] == tally(steps_taken(steps@, self.light(k, x as int, y as int))),
    {
        match self.linear_at(x, y) {
            None => self.rgb,
            Some(c) => {
                assert(c[0] == self.light(0, x as int, y as int));
                assert(c[1] == self.light(1, x as int, y as int));
                assert(c[2] == self.light(2, x as int, y as int));
                [eight_bits(steps, c[0]), eight_bits(steps, c[1]), eight_bits(steps, c[2])]
            },
        }
    }
}

/// A colour in linear light.
pub open spec fn lighted(linear: Seq<u64>, c: Option<[u8; 3]>, v: Option<[u64; 3]>) -> bool {
    match c {
        None => v is None,
        Some(b) => v matches Some(l) && l[0] == linear[b[0] as int] && l[1] == linear[b[1] as int] && l[2]
            == linear[b[2] as int],
    }
}

/// The field of a grid that was read: its cells in linear light, those that could
/// not be read filled, and all of them evened out a little, so that no step is
/// left where filled cells begin.
pub open spec fn is_field(
    grid: &FieldGrid,
    size: (u32, u32),
    rgb: [u8; 3],
    linear: Seq<u64>,
    values: Seq<Option<[u64; 3]>>,
    fallback: [u64; 3],
    cells: &FieldCells,
) -> bool {
    let (w, h) = (grid.cols as int, grid.rows as int);
    &&& values.len() == grid.colours@.len()
    &&& forall|i: int| 0 <= i < values.len() ==> lighted(linear, grid.colours@[i], #[trigger] values[i])
    &&& lighted(linear, Some(rgb), Some(fallback))
    &&& cells.cols() == w
    &&& cells.rows() == h
    &&& cells.width() == size.0
    &&& cells.height() == size.1
    &&& forall|k: int| 0 <= k < 3 ==> #[trigger] cells.plane(k) == blurred(filled(w, h, values, fallback, k), w, h, 1)
}

/// The field has the cells of a grid that was read.
pub open spec fn spreads_over(
    grid: &FieldGrid,
    size: (u32, u32),
    rgb: [u8; 3],
    linear: Seq<u64>,
    r: &BackgroundField,
) -> bool {
    exists|values: Seq<Option<[u64; 3]>>, fallback: [u64; 3], cells: FieldCells|
        r.cells() == Some(cells) && #[trigger] is_field(grid, size, rgb, linear, values, fallback, &cells)
}

/// Builds the field of a grid that was read.
pub fn build_field(grid: &FieldGrid, size: (u32, u32), rgb: [u8; 3], linear: &[u64]) -> (r: BackgroundField)
    requires
        0 < grid.cols <= 256,
        0 < grid.rows <= 256,
        grid.colours@.len() == grid.cols * grid.rows,
        0 < size.0,
        0 < size.1,
        light_ok(linear@),
    ensures
        r.wf(),
        r.base() == rgb,
        spreads_over(grid, size, rgb, linear@, &r),
{
    let n: usize = grid.colours.len();
    let mut values: Vec<Option<[u64; 3]>> = Vec::with_capacity(n);
    let mut i: usize = 0;
    while i < n
        invariant
            n == grid.colours@.len(),
            light_ok(linear@),
            i <= n,
            values@.len() == i,
            forall|j: int| 0 <= j < i ==> lighted(linear@, grid.colours@[j], #[trigger] values@[j]),
            values_lit(values@),
        decreases n - i,
    {
        let v: Option<[u64; 3]> = match grid.colours[i] {
            None => None,
            Some(b) => Some([linear[b[0] as usize], linear[b[1] as usize], linear[b[2] as usize]]),
        };
        values.push(v);
        i += 1;
    }
    let fallback: [u64; 3] = [linear[rgb[0] as usize], linear[rgb[1] as usize], linear[rgb[2] as usize]];
    let (a, b, c): (Vec<u64>, Vec<u64>, Vec<u64>) = fill_unknown(grid.cols, grid.rows, values.as_slice(), fallback);
    let (w, h): (usize, usize) = (grid.cols as usize, grid.rows as usize);
    let cells: FieldCells = FieldCells {
        cols: grid.cols,
        rows: grid.rows,
        width: size.0,
        height: size.1,
        red: gaussian3(a, w, h, 1),
        green: gaussian3(b, w, h, 1),
        blue: gaussian3(c, w, h, 1),
    };
    assert(is_field(grid, size, rgb, linear@, values@, fallback, &cells));
    BackgroundField { rgb, grid: Some(cells) }
}

} // verus!

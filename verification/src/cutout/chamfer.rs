//! Distances to the nearest seed by two passes over the plane.
//!
//! Steps to the side and to the diagonal have fixed costs. One pass from the top
//! left and one from the bottom right find the cheapest way from any seed: every
//! cheapest way can be walked so that the first pass covers its beginning and the
//! second its end.
use vstd::prelude::*;

use crate::geometry::{at, before, lemma_at_bound, lemma_at_distinct, on_plane};

verus! {

/// What a step to the side costs: 3, or 1 where diagonals cost no more.
pub open spec fn side(round: bool) -> int {
    if round { 3 } else { 1 }
}

/// What a diagonal step costs.
pub open spec fn diagonal(round: bool) -> int {
    if round { 4 } else { 1 }
}

pub open spec fn size(d: int) -> int {
    if d < 0 { -d } else { d }
}

/// The cost of the cheapest way over `dx` columns and `dy` rows: diagonals as far
/// as they lead, sides for the rest. With equal costs this is the larger of the
/// two.
pub open spec fn span(round: bool, dx: int, dy: int) -> int {
    let (a, b) = (size(dx), size(dy));
    let (long, short) = if a > b { (a, b) } else { (b, a) };
    if round {
        3 * (long - short) + 4 * short
    } else {
        long
    }
}

/// No seed is closer than `v`.
#[verifier::opaque]
pub open spec fn reaches(round: bool, seed: Seq<bool>, w: int, h: int, x: int, y: int, v: int) -> bool {
    forall|p: int, q: int|
        on_plane(w, h, p, q) && #[trigger] seed[at(w, p, q)] ==> v <= span(round, x - p, y - q)
}

/// Some seed is no farther than `v`, or `v` is the cap.
#[verifier::opaque]
pub open spec fn grounded(round: bool, seed: Seq<bool>, w: int, h: int, cap: int, x: int, y: int, v: int) -> bool {
    v == cap || exists|p: int, q: int|
        on_plane(w, h, p, q) && #[trigger] seed[at(w, p, q)] && span(round, x - p, y - q) <= v
}

/// `v` is the distance from `(x, y)` to the nearest seed, cut off at `cap`.
pub open spec fn is_distance(round: bool, seed: Seq<bool>, w: int, h: int, cap: int, x: int, y: int, v: int) -> bool {
    &&& 0 <= v <= cap
    &&& forall|p: int, q: int|
        on_plane(w, h, p, q) && #[trigger] seed[at(w, p, q)] ==> v <= span(round, x - p, y - q)
    &&& v == cap || exists|p: int, q: int|
        on_plane(w, h, p, q) && #[trigger] seed[at(w, p, q)] && span(round, x - p, y - q) == v
}

/// No seed is closer than `v` among those from which the first pass alone leads
/// here: those above, and not farther to the right than up.
#[verifier::opaque]
pub open spec fn reaches_forward(round: bool, seed: Seq<bool>, w: int, h: int, x: int, y: int, v: int) -> bool {
    forall|p: int, q: int|
        on_plane(w, h, p, q) && #[trigger] seed[at(w, p, q)] && q <= y && p - x <= y - q ==> v <= span(
            round,
            x - p,
            y - q,
        )
}

/// One step adds no more than its cost.
pub proof fn lemma_step_cost(round: bool, dx: int, dy: int, sx: int, sy: int)
    requires
        -1 <= sx <= 1,
        -1 <= sy <= 1,
        sx != 0 || sy != 0,
    ensures
        span(round, dx + sx, dy + sy) <= span(round, dx, dy) + if sx != 0 && sy != 0 {
            diagonal(round)
        } else {
            side(round)
        },
        span(round, dx, dy) >= 0,
{
}

/// A value reached by a step from a grounded one is grounded.
pub proof fn lemma_grounded_step(
    round: bool,
    seed: Seq<bool>,
    w: int,
    h: int,
    cap: int,
    x: int,
    y: int,
    u: int,
    v: int,
    from: int,
    to: int,
)
    requires
        grounded(round, seed, w, h, cap, u, v, from),
        -1 <= x - u <= 1,
        -1 <= y - v <= 1,
        x != u || y != v,
        to == from + if x != u && y != v { diagonal(round) } else { side(round) } || to == cap,
        from < cap || to == cap,
    ensures
        grounded(round, seed, w, h, cap, x, y, to),
{
    reveal(grounded);
    if to != cap {
        let (p, q) = choose|p: int, q: int|
            on_plane(w, h, p, q) && #[trigger] seed[at(w, p, q)] && span(round, u - p, v - q) <= from;
        lemma_step_cost(round, u - p, v - q, x - u, y - v);
        assert(seed[at(w, p, q)]);
    }
}

/// The neighbours that the first pass reads, as `(column step, row step)`.
pub open spec fn first_pass(k: int) -> (int, int) {
    if k == 0 {
        (0, -1)
    } else if k == 1 {
        (-1, -1)
    } else if k == 2 {
        (1, -1)
    } else {
        (-1, 0)
    }
}

/// What one step costs.
pub open spec fn cost(round: bool, sx: int, sy: int) -> int {
    if sx != 0 && sy != 0 { diagonal(round) } else { side(round) }
}

/// Every seed that the first pass can lead from comes through a neighbour that
/// it has read, unless it is the pixel itself.
pub proof fn lemma_forward(
    round: bool,
    seed: Seq<bool>,
    d: Seq<int>,
    w: int,
    h: int,
    x: int,
    y: int,
    best: int,
)
    requires
        on_plane(w, h, x, y),
        seed[at(w, x, y)] ==> best <= 0,
        forall|k: int|
            #![trigger first_pass(k)]
            0 <= k < 4 && on_plane(w, h, x + first_pass(k).0, y + first_pass(k).1) ==> {
                let (u, v) = (x + first_pass(k).0, y + first_pass(k).1);
                &&& reaches_forward(round, seed, w, h, u, v, d[at(w, u, v)])
                &&& best <= d[at(w, u, v)] + cost(round, first_pass(k).0, first_pass(k).1)
            },
    ensures
        reaches_forward(round, seed, w, h, x, y, best),
{
    reveal(reaches_forward);
    assert forall|p: int, q: int|
        on_plane(w, h, p, q) && #[trigger] seed[at(w, p, q)] && q <= y && p - x <= y - q implies best <= span(
        round,
        x - p,
        y - q,
    ) by {
        let (dx, dy) = (x - p, y - q);
        if dx == 0 && dy == 0 {
        } else if dy > 0 && dx == 0 {
            assert(first_pass(0) == (0int, -1int));
        } else if dy > 0 && dx > 0 {
            assert(first_pass(1) == (-1int, -1int));
        } else if dy > 0 {
            assert(first_pass(2) == (1int, -1int));
        } else {
            assert(first_pass(3) == (-1int, 0int));
        }
    }
}

/// After the second pass no seed is closer: a seed that the first pass does not
/// lead from comes through a neighbour that the second pass has read.
pub proof fn lemma_backward(
    round: bool,
    seed: Seq<bool>,
    d: Seq<int>,
    w: int,
    h: int,
    x: int,
    y: int,
    best: int,
)
    requires
        on_plane(w, h, x, y),
        reaches_forward(round, seed, w, h, x, y, d[at(w, x, y)]),
        best <= d[at(w, x, y)],
        forall|k: int|
            #![trigger first_pass(k)]
            0 <= k < 4 && on_plane(w, h, x - first_pass(k).0, y - first_pass(k).1) ==> {
                let (u, v) = (x - first_pass(k).0, y - first_pass(k).1);
                &&& reaches(round, seed, w, h, u, v, d[at(w, u, v)])
                &&& best <= d[at(w, u, v)] + cost(round, first_pass(k).0, first_pass(k).1)
            },
    ensures
        reaches(round, seed, w, h, x, y, best),
{
    reveal(reaches_forward);
    reveal(reaches);
    assert forall|p: int, q: int| on_plane(w, h, p, q) && #[trigger] seed[at(w, p, q)] implies best <= span(
        round,
        x - p,
        y - q,
    ) by {
        let (dx, dy) = (x - p, y - q);
        if dy >= 0 && -dx <= dy {
        } else if dy >= 0 {
            assert(first_pass(3) == (-1int, 0int));
        } else if dx == 0 {
            assert(first_pass(0) == (0int, -1int));
        } else if dx < 0 {
            assert(first_pass(1) == (-1int, -1int));
        } else {
            assert(first_pass(2) == (1int, -1int));
        }
    }
}

/// The values of a plane as integers.
pub open spec fn values(d: Seq<u8>) -> Seq<int> {
    d.map_values(|v: u8| v as int)
}

proof fn lemma_values(d: Seq<u8>, w: int, h: int)
    requires
        d.len() == w * h,
    ensures
        forall|x: int, y: int|
            on_plane(w, h, x, y) ==> #[trigger] values(d)[at(w, x, y)] == d[at(w, x, y)],
{
    assert forall|x: int, y: int| on_plane(w, h, x, y) implies #[trigger] values(d)[at(w, x, y)] == d[at(w, x, y)] by {
        lemma_at_bound(w, h, x, y);
    }
}

fn capped_add(a: u8, b: u8) -> (r: u8)
    ensures
        r == if a + b > 255 { 255 } else { a + b },
{
    if a > 255 - b {
        255
    } else {
        a + b
    }
}

/// Reads one neighbour: the smaller of `best` and the way through it.
fn relax(best: u8, through: u8, cost: u8) -> (r: u8)
    ensures
        r <= best,
        r <= through + cost,
        r == best || r == 255 || r == through + cost,
        r == best || (through + cost < 255 && r == through + cost),
{
    let d: u8 = capped_add(through, cost);
    if d < best {
        d
    } else {
        best
    }
}

/// The smaller of a value and the way through a neighbour `(u, v)`, with what is
/// known of the two.
fn relax_from(
    best: u8,
    d: &Vec<u8>,
    round: bool,
    w: usize,
    h: usize,
    x: usize,
    y: usize,
    u: usize,
    v: usize,
    seed: Ghost<Seq<bool>>,
) -> (r: u8)
    requires
        d@.len() == w * h,
        on_plane(w as int, h as int, u as int, v as int),
        -1 <= x - u <= 1,
        -1 <= y - v <= 1,
        x != u || y != v,
        grounded(round, seed@, w as int, h as int, 255, x as int, y as int, best as int),
        grounded(
            round,
            seed@,
            w as int,
            h as int,
            255,
            u as int,
            v as int,
            d@[at(w as int, u as int, v as int)] as int,
        ),
    ensures
        r <= best,
        r <= d@[at(w as int, u as int, v as int)] + cost(round, x - u, y - v),
        grounded(round, seed@, w as int, h as int, 255, x as int, y as int, r as int),
{
    proof {
        lemma_at_bound(w as int, h as int, u as int, v as int);
        assert(d.len() <= usize::MAX);
    }
    let c: u8 = if x != u && y != v {
        if round {
            4
        } else {
            1
        }
    } else {
        if round {
            3
        } else {
            1
        }
    };
    let through: u8 = d[v * w + u];
    let r: u8 = relax(best, through, c);
    proof {
        if r != best {
            lemma_grounded_step(
                round,
                seed@,
                w as int,
                h as int,
                255,
                x as int,
                y as int,
                u as int,
                v as int,
                through as int,
                r as int,
            );
        }
    }
    r
}

/// Turns a plane of 0 at the seeds and 255 elsewhere into distances to the
/// nearest seed, cut off at 255.
pub fn sweep(d: &mut Vec<u8>, w: usize, h: usize, round: bool, seed: Ghost<Seq<bool>>)
    requires
        old(d)@.len() == w * h,
        forall|x: int, y: int|
            on_plane(w as int, h as int, x, y) ==> #[trigger] old(d)@[at(w as int, x, y)] == if seed@[at(
                w as int,
                x,
                y,
            )] {
                0u8
            } else {
                255u8
            },
    ensures
        final(d)@.len() == old(d)@.len(),
        forall|x: int, y: int|
            on_plane(w as int, h as int, x, y) ==> is_distance(
                round,
                seed@,
                w as int,
                h as int,
                255,
                x,
                y,
                (#[trigger] final(d)@[at(w as int, x, y)]) as int,
            ),
{
    first_sweep(d, w, h, round, seed);
    second_sweep(d, w, h, round, seed);
    proof {
        let (wi, hi) = (w as int, h as int);
        assert forall|x: int, y: int| on_plane(wi, hi, x, y) implies is_distance(
            round,
            seed@,
            wi,
            hi,
            255,
            x,
            y,
            (#[trigger] d@[at(wi, x, y)]) as int,
        ) by {
            reveal(reaches);
            reveal(grounded);
            let v = d@[at(wi, x, y)] as int;
            assert(reaches(round, seed@, wi, hi, x, y, v));
            assert(grounded(round, seed@, wi, hi, 255, x, y, v));
            if v != 255 {
                let (p, q) = choose|p: int, q: int|
                    on_plane(wi, hi, p, q) && #[trigger] seed@[at(wi, p, q)] && span(round, x - p, y - q) <= v;
                assert(span(round, x - p, y - q) == v);
            }
        }
    }
}

/// What holds while the first pass is before `(cx, cy)`.
#[verifier::opaque]
spec fn swept(round: bool, s: Seq<bool>, w: int, h: int, d: Seq<u8>, cx: int, cy: int) -> bool {
    forall|a: int, b: int|
        #![trigger d[at(w, a, b)]]
        on_plane(w, h, a, b) ==> {
            &&& grounded(round, s, w, h, 255, a, b, d[at(w, a, b)] as int)
            &&& if before((a, b), cx, cy) {
                reaches_forward(round, s, w, h, a, b, d[at(w, a, b)] as int)
            } else {
                s[at(w, a, b)] ==> d[at(w, a, b)] == 0
            }
        }
}

proof fn lemma_swept_at(round: bool, s: Seq<bool>, w: int, h: int, d: Seq<u8>, cx: int, cy: int, a: int, b: int)
    requires
        swept(round, s, w, h, d, cx, cy),
        on_plane(w, h, a, b),
    ensures
        grounded(round, s, w, h, 255, a, b, d[at(w, a, b)] as int),
        before((a, b), cx, cy) ==> reaches_forward(round, s, w, h, a, b, d[at(w, a, b)] as int),
        !before((a, b), cx, cy) && s[at(w, a, b)] ==> d[at(w, a, b)] == 0,
{
    reveal(swept);
    assert(d[at(w, a, b)] == d[at(w, a, b)]);
}

proof fn lemma_swept_step(round: bool, s: Seq<bool>, w: int, h: int, d: Seq<u8>, x: int, y: int, best: u8)
    requires
        d.len() == w * h,
        on_plane(w, h, x, y),
        swept(round, s, w, h, d, x, y),
        reaches_forward(round, s, w, h, x, y, best as int),
        grounded(round, s, w, h, 255, x, y, best as int),
    ensures
        swept(round, s, w, h, d.update(at(w, x, y), best), x + 1, y),
{
    reveal(swept);
    let now = d.update(at(w, x, y), best);
    lemma_updated(d, now, w, h, x, y, best);
    assert forall|a: int, b: int|
        #![trigger now[at(w, a, b)]]
        on_plane(w, h, a, b) implies {
        &&& grounded(round, s, w, h, 255, a, b, now[at(w, a, b)] as int)
        &&& if before((a, b), x + 1, y) {
            reaches_forward(round, s, w, h, a, b, now[at(w, a, b)] as int)
        } else {
            s[at(w, a, b)] ==> now[at(w, a, b)] == 0
        }
    } by {
        if a != x || b != y {
            assert(now[at(w, a, b)] == d[at(w, a, b)]);
        }
    }
}

proof fn lemma_swept_row(round: bool, s: Seq<bool>, w: int, h: int, d: Seq<u8>, y: int)
    requires
        swept(round, s, w, h, d, w, y),
    ensures
        swept(round, s, w, h, d, 0, y + 1),
{
    reveal(swept);
}

/// The value of a pixel after the first pass.
fn first_value(d: &Vec<u8>, w: usize, h: usize, x: usize, y: usize, round: bool, seed: Ghost<Seq<bool>>) -> (best: u8)
    requires
        d@.len() == w * h,
        on_plane(w as int, h as int, x as int, y as int),
        swept(round, seed@, w as int, h as int, d@, x as int, y as int),
    ensures
        reaches_forward(round, seed@, w as int, h as int, x as int, y as int, best as int),
        grounded(round, seed@, w as int, h as int, 255, x as int, y as int, best as int),
{
    let ghost (wi, hi, xi, yi) = (w as int, h as int, x as int, y as int);
    let ghost s = seed@;
    proof {
        lemma_at_bound(wi, hi, xi, yi);
        lemma_swept_at(round, s, wi, hi, d@, xi, yi, xi, yi);
        assert(d.len() <= usize::MAX);
    }
    let mut best: u8 = d[y * w + x];
    if y > 0 {
        proof {
            lemma_swept_at(round, s, wi, hi, d@, xi, yi, xi, yi - 1);
        }
        best = relax_from(best, d, round, w, h, x, y, x, y - 1, seed);
        if x > 0 {
            proof {
                lemma_swept_at(round, s, wi, hi, d@, xi, yi, xi - 1, yi - 1);
            }
            best = relax_from(best, d, round, w, h, x, y, x - 1, y - 1, seed);
        }
        if x + 1 < w {
            proof {
                lemma_swept_at(round, s, wi, hi, d@, xi, yi, xi + 1, yi - 1);
            }
            best = relax_from(best, d, round, w, h, x, y, x + 1, y - 1, seed);
        }
    }
    if x > 0 {
        proof {
            lemma_swept_at(round, s, wi, hi, d@, xi, yi, xi - 1, yi);
        }
        best = relax_from(best, d, round, w, h, x, y, x - 1, y, seed);
    }
    proof {
        lemma_values(d@, wi, hi);
        lemma_forward(round, s, values(d@), wi, hi, xi, yi, best as int);
    }
    best
}

fn first_sweep(d: &mut Vec<u8>, w: usize, h: usize, round: bool, seed: Ghost<Seq<bool>>)
    requires
        old(d)@.len() == w * h,
        forall|x: int, y: int|
            on_plane(w as int, h as int, x, y) ==> #[trigger] old(d)@[at(w as int, x, y)] == if seed@[at(
                w as int,
                x,
                y,
            )] {
                0u8
            } else {
                255u8
            },
    ensures
        final(d)@.len() == old(d)@.len(),
        forall|x: int, y: int|
            on_plane(w as int, h as int, x, y) ==> reaches_forward(
                round,
                seed@,
                w as int,
                h as int,
                x,
                y,
                (#[trigger] final(d)@[at(w as int, x, y)]) as int,
            ),
        forall|x: int, y: int|
            on_plane(w as int, h as int, x, y) ==> grounded(
                round,
                seed@,
                w as int,
                h as int,
                255,
                x,
                y,
                (#[trigger] final(d)@[at(w as int, x, y)]) as int,
            ),
{
    let ghost (wi, hi) = (w as int, h as int);
    let ghost s = seed@;
    let n: usize = d.len();
    proof {
        reveal(swept);
        assert forall|x: int, y: int| on_plane(wi, hi, x, y) implies grounded(
            round,
            s,
            wi,
            hi,
            255,
            x,
            y,
            (#[trigger] d@[at(wi, x, y)]) as int,
        ) by {
            reveal(grounded);
            if s[at(wi, x, y)] {
                assert(span(round, x - x, y - y) == 0);
            }
        }
        assert(swept(round, s, wi, hi, d@, 0, 0));
    }
    let mut y: usize = 0;
    while y < h
        invariant
            wi == w,
            hi == h,
            s == seed@,
            n == d@.len() == w * h,
            y <= h,
            swept(round, s, wi, hi, d@, 0, y as int),
        decreases h - y,
    {
        let mut x: usize = 0;
        while x < w
            invariant
                wi == w,
                hi == h,
                s == seed@,
                n == d@.len() == w * h,
                y < h,
                x <= w,
                swept(round, s, wi, hi, d@, x as int, y as int),
            decreases w - x,
        {
            proof {
                lemma_at_bound(wi, hi, x as int, y as int);
            }
            let best: u8 = first_value(d, w, h, x, y, round, seed);
            proof {
                lemma_swept_step(round, s, wi, hi, d@, x as int, y as int, best);
            }
            d.set(y * w + x, best);
            x += 1;
        }
        proof {
            lemma_swept_row(round, s, wi, hi, d@, y as int);
        }
        y += 1;
    }
    proof {
        reveal(swept);
        assert forall|x: int, y: int| on_plane(wi, hi, x, y) implies reaches_forward(
            round,
            s,
            wi,
            hi,
            x,
            y,
            (#[trigger] d@[at(wi, x, y)]) as int,
        ) && grounded(round, s, wi, hi, 255, x, y, d@[at(wi, x, y)] as int) by {}
    }
}

/// Every pixel but one keeps its value.
pub proof fn lemma_updated<T>(was: Seq<T>, now: Seq<T>, w: int, h: int, x: int, y: int, value: T)
    requires
        was.len() == w * h,
        on_plane(w, h, x, y),
        now == was.update(at(w, x, y), value),
    ensures
        now[at(w, x, y)] == value,
        forall|a: int, b: int|
            on_plane(w, h, a, b) && (a != x || b != y) ==> #[trigger] now[at(w, a, b)] == was[at(w, a, b)],
{
    lemma_at_bound(w, h, x, y);
    assert forall|a: int, b: int| on_plane(w, h, a, b) && (a != x || b != y) implies #[trigger] now[at(w, a, b)]
        == was[at(w, a, b)] by {
        lemma_at_bound(w, h, a, b);
        if at(w, a, b) == at(w, x, y) {
            lemma_at_distinct(w, a, b, x, y);
        }
    }
}

/// What holds while the second pass is before `(cx, cy)`, which it comes to from
/// below.
#[verifier::opaque]
spec fn swept_back(round: bool, s: Seq<bool>, w: int, h: int, d: Seq<u8>, cx: int, cy: int) -> bool {
    forall|a: int, b: int|
        #![trigger d[at(w, a, b)]]
        on_plane(w, h, a, b) ==> {
            &&& grounded(round, s, w, h, 255, a, b, d[at(w, a, b)] as int)
            &&& if before((a, b), cx, cy) {
                reaches_forward(round, s, w, h, a, b, d[at(w, a, b)] as int)
            } else {
                reaches(round, s, w, h, a, b, d[at(w, a, b)] as int)
            }
        }
}

proof fn lemma_back_at(round: bool, s: Seq<bool>, w: int, h: int, d: Seq<u8>, cx: int, cy: int, a: int, b: int)
    requires
        swept_back(round, s, w, h, d, cx, cy),
        on_plane(w, h, a, b),
    ensures
        grounded(round, s, w, h, 255, a, b, d[at(w, a, b)] as int),
        before((a, b), cx, cy) ==> reaches_forward(round, s, w, h, a, b, d[at(w, a, b)] as int),
        !before((a, b), cx, cy) ==> reaches(round, s, w, h, a, b, d[at(w, a, b)] as int),
{
    reveal(swept_back);
    assert(d[at(w, a, b)] == d[at(w, a, b)]);
}

/// One more pixel is final.
proof fn lemma_back_step(round: bool, s: Seq<bool>, w: int, h: int, d: Seq<u8>, x: int, y: int, best: u8)
    requires
        d.len() == w * h,
        on_plane(w, h, x, y),
        swept_back(round, s, w, h, d, x + 1, y),
        reaches(round, s, w, h, x, y, best as int),
        grounded(round, s, w, h, 255, x, y, best as int),
    ensures
        swept_back(round, s, w, h, d.update(at(w, x, y), best), x, y),
{
    reveal(swept_back);
    let now = d.update(at(w, x, y), best);
    lemma_updated(d, now, w, h, x, y, best);
    assert forall|a: int, b: int|
        #![trigger now[at(w, a, b)]]
        on_plane(w, h, a, b) implies {
        &&& grounded(round, s, w, h, 255, a, b, now[at(w, a, b)] as int)
        &&& if before((a, b), x, y) {
            reaches_forward(round, s, w, h, a, b, now[at(w, a, b)] as int)
        } else {
            reaches(round, s, w, h, a, b, now[at(w, a, b)] as int)
        }
    } by {
        if a != x || b != y {
            assert(now[at(w, a, b)] == d[at(w, a, b)]);
        }
    }
}

/// The end of a row is the beginning of the one above.
proof fn lemma_back_row(round: bool, s: Seq<bool>, w: int, h: int, d: Seq<u8>, y: int)
    requires
        swept_back(round, s, w, h, d, 0, y),
    ensures
        swept_back(round, s, w, h, d, w, y - 1),
{
    reveal(swept_back);
}

/// The final value of a pixel.
fn second_value(d: &Vec<u8>, w: usize, h: usize, x: usize, y: usize, round: bool, seed: Ghost<Seq<bool>>) -> (best: u8)
    requires
        d@.len() == w * h,
        on_plane(w as int, h as int, x as int, y as int),
        swept_back(round, seed@, w as int, h as int, d@, x + 1, y as int),
    ensures
        reaches(round, seed@, w as int, h as int, x as int, y as int, best as int),
        grounded(round, seed@, w as int, h as int, 255, x as int, y as int, best as int),
{
    let ghost (wi, hi, xi, yi) = (w as int, h as int, x as int, y as int);
    let ghost s = seed@;
    proof {
        lemma_at_bound(wi, hi, xi, yi);
        lemma_back_at(round, s, wi, hi, d@, xi + 1, yi, xi, yi);
        assert(d.len() <= usize::MAX);
    }
    let mut best: u8 = d[y * w + x];
    if y + 1 < h {
        proof {
            lemma_back_at(round, s, wi, hi, d@, xi + 1, yi, xi, yi + 1);
        }
        best = relax_from(best, d, round, w, h, x, y, x, y + 1, seed);
        if x > 0 {
            proof {
                lemma_back_at(round, s, wi, hi, d@, xi + 1, yi, xi - 1, yi + 1);
            }
            best = relax_from(best, d, round, w, h, x, y, x - 1, y + 1, seed);
        }
        if x + 1 < w {
            proof {
                lemma_back_at(round, s, wi, hi, d@, xi + 1, yi, xi + 1, yi + 1);
            }
            best = relax_from(best, d, round, w, h, x, y, x + 1, y + 1, seed);
        }
    }
    if x + 1 < w {
        proof {
            lemma_back_at(round, s, wi, hi, d@, xi + 1, yi, xi + 1, yi);
        }
        best = relax_from(best, d, round, w, h, x, y, x + 1, y, seed);
    }
    proof {
        lemma_values(d@, wi, hi);
        lemma_backward(round, s, values(d@), wi, hi, xi, yi, best as int);
    }
    best
}

fn second_sweep(d: &mut Vec<u8>, w: usize, h: usize, round: bool, seed: Ghost<Seq<bool>>)
    requires
        old(d)@.len() == w * h,
        forall|x: int, y: int|
            on_plane(w as int, h as int, x, y) ==> reaches_forward(
                round,
                seed@,
                w as int,
                h as int,
                x,
                y,
                (#[trigger] old(d)@[at(w as int, x, y)]) as int,
            ),
        forall|x: int, y: int|
            on_plane(w as int, h as int, x, y) ==> grounded(
                round,
                seed@,
                w as int,
                h as int,
                255,
                x,
                y,
                (#[trigger] old(d)@[at(w as int, x, y)]) as int,
            ),
    ensures
        final(d)@.len() == old(d)@.len(),
        forall|x: int, y: int|
            on_plane(w as int, h as int, x, y) ==> reaches(
                round,
                seed@,
                w as int,
                h as int,
                x,
                y,
                (#[trigger] final(d)@[at(w as int, x, y)]) as int,
            ),
        forall|x: int, y: int|
            on_plane(w as int, h as int, x, y) ==> grounded(
                round,
                seed@,
                w as int,
                h as int,
                255,
                x,
                y,
                (#[trigger] final(d)@[at(w as int, x, y)]) as int,
            ),
{
    let ghost (wi, hi) = (w as int, h as int);
    let ghost s = seed@;
    proof {
        reveal(swept_back);
    }
    let n: usize = d.len();
    let mut rows: usize = h;
    assert(swept_back(round, s, wi, hi, d@, wi, hi - 1));
    while rows > 0
        invariant
            wi == w,
            hi == h,
            s == seed@,
            n == d@.len() == w * h,
            rows <= h,
            swept_back(round, s, wi, hi, d@, wi, rows - 1),
        decreases rows,
    {
        let y: usize = rows - 1;
        let mut columns: usize = w;
        while columns > 0
            invariant
                wi == w,
                hi == h,
                s == seed@,
                n == d@.len() == w * h,
                y < h,
                columns <= w,
                swept_back(round, s, wi, hi, d@, columns as int, y as int),
            decreases columns,
        {
            let x: usize = columns - 1;
            proof {
                lemma_at_bound(wi, hi, x as int, y as int);
            }
            let best: u8 = second_value(d, w, h, x, y, round, seed);
            proof {
                lemma_back_step(round, s, wi, hi, d@, x as int, y as int, best);
            }
            d.set(y * w + x, best);
            columns -= 1;
        }
        proof {
            lemma_back_row(round, s, wi, hi, d@, y as int);
        }
        rows -= 1;
    }
    proof {
        reveal(swept_back);
        assert forall|x: int, y: int| on_plane(wi, hi, x, y) implies reaches(
            round,
            s,
            wi,
            hi,
            x,
            y,
            (#[trigger] d@[at(wi, x, y)]) as int,
        ) && grounded(round, s, wi, hi, 255, x, y, d@[at(wi, x, y)] as int) by {}
    }
}

} // verus!

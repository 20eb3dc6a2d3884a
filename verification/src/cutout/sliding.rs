//! Moving maxima, in time that does not depend on the size of the window.
use vstd::prelude::*;

use crate::cutout::blur::{window_end, window_from};
use crate::cutout::morphology::in_window;
use crate::geometry::{at, lemma_at_bound, on_plane};

verus! {

/// `v` is the largest of `line[a..b]`.
pub open spec fn is_max(line: Seq<u128>, a: int, b: int, v: u128) -> bool {
    &&& exists|k: int| a <= k < b && #[trigger] line[k] == v
    &&& forall|k: int| a <= k < b ==> #[trigger] line[k] <= v
}

/// The places of a queue from which later maxima are read: ascending, with
/// falling values, and for every place that was fed one that is no earlier and no
/// smaller.
#[verifier::opaque]
spec fn queued(line: Seq<u128>, queue: Seq<usize>, head: int, from: int, fed: int) -> bool {
    &&& 0 <= head <= queue.len()
    &&& forall|i: int| head <= i < queue.len() ==> (#[trigger] queue[i]) < fed
    &&& forall|i: int, j: int|
        head <= i < j < queue.len() ==> #[trigger] queue[i] < #[trigger] queue[j] && line[queue[i] as int]
            > line[queue[j] as int]
    &&& forall|p: int| from <= p < fed ==> #[trigger] covered(line, queue, head, p)
}

/// Some place of the queue is no earlier than `p` and holds no smaller value.
spec fn covered(line: Seq<u128>, queue: Seq<usize>, head: int, p: int) -> bool {
    exists|i: int| head <= i < queue.len() && p <= #[trigger] queue[i] && line[p] <= line[queue[i] as int]
}

/// A place joins the queue once the smaller ones at its end have left.
proof fn lemma_fed(line: Seq<u128>, start: Seq<usize>, kept: int, queue: Seq<usize>, head: int, from: int, fed: usize)
    requires
        queued(line, start, head, from, fed as int),
        0 <= from,
        fed < line.len(),
        head <= kept <= start.len(),
        queue == start.take(kept).push(fed),
        forall|i: int| kept <= i < start.len() ==> line[(#[trigger] start[i]) as int] <= line[fed as int],
        kept > head ==> line[start[kept - 1] as int] > line[fed as int],
    ensures
        queued(line, queue, head, from, fed + 1),
{
    reveal(queued);
    assert forall|i: int| 0 <= i < kept implies #[trigger] queue[i] == start[i] by {}
    assert(queue[kept] == fed);
    assert forall|i: int| head <= i < queue.len() implies (#[trigger] queue[i]) < fed + 1 by {
        if i < kept {
            assert(start[i] < fed);
        }
    }
    assert forall|i: int, j: int| head <= i < j < queue.len() implies #[trigger] queue[i] < #[trigger] queue[j]
        && line[queue[i] as int] > line[queue[j] as int] by {
        assert(queue[i] == start[i]);
        if j < kept {
            assert(queue[j] == start[j]);
        } else {
            assert(start[i] < fed);
            if i < kept - 1 {
                assert(start[i] < start[kept - 1]);
            }
        }
    }
    assert forall|p: int| from <= p < fed + 1 implies #[trigger] covered(line, queue, head, p) by {
        if p == fed {
            assert(p <= queue[kept] && line[p] <= line[queue[kept] as int]);
        } else {
            assert(covered(line, start, head, p));
            let i = choose|i: int|
                head <= i < start.len() && p <= #[trigger] start[i] && line[p] <= line[start[i] as int];
            if i < kept {
                assert(queue[i] == start[i]);
            } else {
                assert(line[start[i] as int] <= line[fed as int]);
                assert(p <= queue[kept] && line[p] <= line[queue[kept] as int]);
            }
        }
    }
}

/// A place before the window leaves the queue.
proof fn lemma_left(line: Seq<u128>, queue: Seq<usize>, head: int, from: int, fed: int)
    requires
        queued(line, queue, head, from, fed),
        head < queue.len(),
        queue[head] < from,
    ensures
        queued(line, queue, head + 1, from, fed),
{
    reveal(queued);
    assert forall|p: int| from <= p < fed implies #[trigger] covered(line, queue, head + 1, p) by {
        assert(covered(line, queue, head, p));
        let i = choose|i: int|
            head <= i < queue.len() && p <= #[trigger] queue[i] && line[p] <= line[queue[i] as int];
        assert(i != head);
    }
}

/// The window may start later.
proof fn lemma_later(line: Seq<u128>, queue: Seq<usize>, head: int, from: int, to: int, fed: int)
    requires
        queued(line, queue, head, from, fed),
        from <= to,
    ensures
        queued(line, queue, head, to, fed),
{
    reveal(queued);
}

/// The first of the queue holds the largest value of the window.
proof fn lemma_first(line: Seq<u128>, queue: Seq<usize>, head: int, from: int, fed: int)
    requires
        queued(line, queue, head, from, fed),
        0 <= from < fed <= line.len(),
        head < queue.len() ==> from <= queue[head],
    ensures
        head < queue.len(),
        queue[head] < line.len(),
        is_max(line, from, fed, line[queue[head] as int]),
{
    reveal(queued);
    assert(covered(line, queue, head, from));
    let q = queue[head] as int;
    assert forall|p: int| from <= p < fed implies #[trigger] line[p] <= line[q] by {
        assert(covered(line, queue, head, p));
        let j = choose|j: int|
            head <= j < queue.len() && p <= #[trigger] queue[j] && line[p] <= line[queue[j] as int];
        if j > head {
            assert(queue[head] < queue[j]);
        }
    }
    assert(from <= q < fed && line[q] == line[q]);
}

/// The places of the queue are places of the line.
proof fn lemma_on_line(line: Seq<u128>, queue: Seq<usize>, head: int, from: int, fed: int, i: int)
    requires
        queued(line, queue, head, from, fed),
        head <= i < queue.len(),
    ensures
        queue[i] < fed,
{
    reveal(queued);
}

/// Takes the next place of the line into the queue.
fn feed(line: &[u128], queue: &mut Vec<usize>, head: usize, fed: usize, Ghost(from): Ghost<int>)
    requires
        fed < line@.len(),
        0 <= from,
        queued(line@, old(queue)@, head as int, from, fed as int),
    ensures
        queued(line@, final(queue)@, head as int, from, fed + 1),
{
    let v: u128 = line[fed];
    let ghost start = queue@;
    let ghost s = line@;
    proof {
        reveal(queued);
    }
    let mut go: bool = true;
    while go
        invariant
            s == line@,
            fed < s.len(),
            v == s[fed as int],
            queued(s, start, head as int, from, fed as int),
            head <= queue@.len() <= start.len(),
            queue@ == start.take(queue@.len() as int),
            forall|i: int| queue@.len() <= i < start.len() ==> s[(#[trigger] start[i]) as int] <= v,
            !go ==> (queue@.len() > head ==> s[start[queue@.len() - 1] as int] > v),
        decreases queue@.len(), go as int,
    {
        let n: usize = queue.len();
        if n == head {
            go = false;
        } else {
            proof {
                lemma_on_line(s, start, head as int, from, fed as int, n - 1);
            }
            let last: usize = queue[n - 1];
            assert(last == start[n - 1]);
            if line[last] <= v {
                queue.pop();
                assert(queue@ =~= start.take(queue@.len() as int));
            } else {
                go = false;
            }
        }
    }
    let ghost kept = queue@.len() as int;
    queue.push(fed);
    proof {
        lemma_fed(s, start, kept, queue@, head as int, from, fed);
    }
}

/// Replaces each value of a line by the largest of its window.
pub fn sliding_max(line: &[u128], radius: usize) -> (out: Vec<u128>)
    ensures
        out@.len() == line@.len(),
        forall|x: int|
            0 <= x < line@.len() ==> is_max(
                line@,
                window_from(radius as int, x),
                window_end(line@.len() as int, radius as int, x),
                #[trigger] out@[x],
            ),
{
    let n: usize = line.len();
    let ghost (ni, r) = (n as int, radius as int);
    let ghost s = line@;
    let mut out: Vec<u128> = Vec::with_capacity(n);
    let mut queue: Vec<usize> = Vec::new();
    let mut head: usize = 0;
    let mut fed: usize = 0;
    let mut x: usize = 0;
    proof {
        reveal(queued);
    }
    while x < n
        invariant
            ni == n == s.len(),
            r == radius,
            s == line@,
            x <= n,
            fed <= n,
            head <= queue@.len(),
            fed == if x == 0 { 0 } else { window_end(ni, r, x - 1) },
            queued(s, queue@, head as int, if x == 0 { 0 } else { window_from(r, x - 1) }, fed as int),
            out@.len() == x,
            forall|k: int|
                0 <= k < x ==> is_max(s, window_from(r, k), window_end(ni, r, k), #[trigger] out@[k]),
        decreases n - x,
    {
        let end: usize = if radius < n - x && x + radius + 1 < n { x + radius + 1 } else { n };
        let from: usize = if x < radius { 0 } else { x - radius };
        let ghost before: int = if x == 0 { 0 } else { window_from(r, x - 1) };
        while fed < end
            invariant
                ni == n == s.len(),
                s == line@,
                fed <= end <= n,
                head <= queue@.len(),
                0 <= before,
                queued(s, queue@, head as int, before, fed as int),
            decreases end - fed,
        {
            feed(line, &mut queue, head, fed, Ghost(before));
            fed += 1;
            proof {
                reveal(queued);
            }
        }
        proof {
            lemma_later(s, queue@, head as int, before, from as int, fed as int);
        }
        while head < queue.len() && queue[head] < from
            invariant
                head <= queue@.len(),
                queued(s, queue@, head as int, from as int, fed as int),
            decreases queue@.len() - head,
        {
            proof {
                lemma_left(s, queue@, head as int, from as int, fed as int);
            }
            head += 1;
        }
        proof {
            lemma_first(s, queue@, head as int, from as int, fed as int);
        }
        out.push(line[queue[head]]);
        x += 1;
    }
    out
}

/// `v` is the largest value of `m` in the window around `(x, y)`.
pub open spec fn is_local_max(m: Seq<u128>, w: int, h: int, rx: int, ry: int, x: int, y: int, v: u128) -> bool {
    &&& exists|a: int, b: int|
        on_plane(w, h, a, b) && in_window(rx, ry, x, y, a, b) && #[trigger] m[at(w, a, b)] == v
    &&& forall|a: int, b: int|
        on_plane(w, h, a, b) && in_window(rx, ry, x, y, a, b) ==> #[trigger] m[at(w, a, b)] <= v
}

/// The largest value in the square window around each pixel, in two passes.
pub fn local_max(m: &[u128], w: usize, h: usize, radius: usize) -> (out: Vec<u128>)
    requires
        m@.len() == w * h,
    ensures
        out@.len() == m@.len(),
        forall|x: int, y: int|
            on_plane(w as int, h as int, x, y) ==> is_local_max(
                m@,
                w as int,
                h as int,
                radius as int,
                radius as int,
                x,
                y,
                #[trigger] out@[at(w as int, x, y)],
            ),
{
    let ghost (wi, hi, r) = (w as int, h as int, radius as int);
    let rows: Vec<u128> = pass_max(m, w, h, radius, true);
    let out: Vec<u128> = pass_max(rows.as_slice(), w, h, radius, false);
    proof {
        assert forall|x: int, y: int| on_plane(wi, hi, x, y) implies is_local_max(
            m@,
            wi,
            hi,
            r,
            r,
            x,
            y,
            #[trigger] out@[at(wi, x, y)],
        ) by {
            let v = out@[at(wi, x, y)];
            assert(is_local_max(rows@, wi, hi, 0, r, x, y, v));
            let (a, b) = choose|a: int, b: int|
                on_plane(wi, hi, a, b) && in_window(0, r, x, y, a, b) && #[trigger] rows@[at(wi, a, b)] == v;
            assert(is_local_max(m@, wi, hi, r, 0, a, b, rows@[at(wi, a, b)]));
            let (c, d) = choose|c: int, d: int|
                on_plane(wi, hi, c, d) && in_window(r, 0, a, b, c, d) && #[trigger] m@[at(wi, c, d)] == rows@[at(
                    wi,
                    a,
                    b,
                )];
            assert(in_window(r, r, x, y, c, d) && m@[at(wi, c, d)] == v);
            assert forall|c: int, d: int| on_plane(wi, hi, c, d) && in_window(r, r, x, y, c, d) implies #[trigger] m@[at(
                wi,
                c,
                d,
            )] <= v by {
                assert(on_plane(wi, hi, x, d));
                assert(is_local_max(m@, wi, hi, r, 0, x, d, rows@[at(wi, x, d)]));
                assert(in_window(r, 0, x, d, c, d));
                assert(in_window(0, r, x, y, x, d));
            }
        }
    }
    out
}

/// One pass, along rows or along columns.
fn pass_max(m: &[u128], w: usize, h: usize, radius: usize, rows: bool) -> (out: Vec<u128>)
    requires
        m@.len() == w * h,
    ensures
        out@.len() == m@.len(),
        forall|x: int, y: int|
            on_plane(w as int, h as int, x, y) ==> is_local_max(
                m@,
                w as int,
                h as int,
                if rows { radius as int } else { 0 },
                if rows { 0 } else { radius as int },
                x,
                y,
                #[trigger] out@[at(w as int, x, y)],
            ),
{
    let ghost (wi, hi, r) = (w as int, h as int, radius as int);
    let ghost (rx, ry): (int, int) = (if rows { r } else { 0 }, if rows { 0 } else { r });
    let n: usize = m.len();
    let mut out: Vec<u128> = vec![0u128; n];
    let lines: usize = if rows { h } else { w };
    let length: usize = if rows { w } else { h };
    let mut k: usize = 0;
    while k < lines
        invariant
            wi == w,
            hi == h,
            r == radius,
            rx == if rows { r } else { 0 },
            ry == if rows { 0 } else { r },
            n == m@.len() == out@.len() == w * h,
            lines == if rows { h } else { w },
            length == if rows { w } else { h },
            k <= lines,
            forall|x: int, y: int|
                on_plane(wi, hi, x, y) && (if rows { y } else { x }) < k ==> is_local_max(
                    m@,
                    wi,
                    hi,
                    rx,
                    ry,
                    x,
                    y,
                    #[trigger] out@[at(wi, x, y)],
                ),
        decreases lines - k,
    {
        let mut line: Vec<u128> = Vec::with_capacity(length);
        let mut t: usize = 0;
        while t < length
            invariant
                wi == w,
                hi == h,
                n == m@.len() == w * h,
                lines == if rows { h } else { w },
                length == if rows { w } else { h },
                k < lines,
                t <= length,
                line@.len() == t,
                forall|j: int|
                    0 <= j < t ==> #[trigger] line@[j] == m@[at(
                        wi,
                        if rows { j } else { k as int },
                        if rows { k as int } else { j },
                    )],
            decreases length - t,
        {
            let (x, y): (usize, usize) = if rows { (t, k) } else { (k, t) };
            proof {
                lemma_at_bound(wi, hi, x as int, y as int);
            }
            line.push(m[y * w + x]);
            t += 1;
        }
        let done: Vec<u128> = sliding_max(line.as_slice(), radius);
        let ghost was = out@;
        let mut t: usize = 0;
        while t < length
            invariant
                wi == w,
                hi == h,
                n == m@.len() == out@.len() == was.len() == w * h,
                lines == if rows { h } else { w },
                length == if rows { w } else { h },
                k < lines,
                t <= length,
                done@.len() == length,
                forall|x: int, y: int|
                    on_plane(wi, hi, x, y) ==> #[trigger] out@[at(wi, x, y)] == if (if rows { y } else { x }) == k
                        && (if rows { x } else { y }) < t {
                        done@[if rows { x } else { y }]
                    } else {
                        was[at(wi, x, y)]
                    },
            decreases length - t,
        {
            let (x, y): (usize, usize) = if rows { (t, k) } else { (k, t) };
            proof {
                lemma_at_bound(wi, hi, x as int, y as int);
            }
            let ghost had = out@;
            out.set(y * w + x, done[t]);
            proof {
                crate::cutout::chamfer::lemma_updated(had, out@, wi, hi, x as int, y as int, done@[t as int]);
            }
            t += 1;
        }
        proof {
            assert forall|x: int, y: int| on_plane(wi, hi, x, y) && (if rows { y } else { x }) < k + 1 implies is_local_max(
                m@,
                wi,
                hi,
                rx,
                ry,
                x,
                y,
                #[trigger] out@[at(wi, x, y)],
            ) by {
                let j = if rows { x } else { y };
                if (if rows { y } else { x }) == k {
                    let v = out@[at(wi, x, y)];
                    assert(v == done@[j]);
                    assert(is_max(line@, window_from(r, j), window_end(length as int, r, j), done@[j]));
                    let q = choose|q: int|
                        window_from(r, j) <= q < window_end(length as int, r, j) && #[trigger] line@[q] == v;
                    let (a, b) = if rows { (q, y) } else { (x, q) };
                    assert(on_plane(wi, hi, a, b) && in_window(rx, ry, x, y, a, b) && m@[at(wi, a, b)] == v);
                    assert forall|a: int, b: int|
                        on_plane(wi, hi, a, b) && in_window(rx, ry, x, y, a, b) implies #[trigger] m@[at(wi, a, b)] <= v by {
                        let p = if rows { a } else { b };
                        assert(line@[p] == m@[at(wi, a, b)]);
                    }
                } else {
                    assert(out@[at(wi, x, y)] == was[at(wi, x, y)]);
                }
            }
        }
        k += 1;
    }
    out
}

/// The first pixel of a rectangle, row by row, with the largest key, unless every
/// key there is 0.
pub fn farthest(keys: &[u128], w: usize, h: usize, x0: usize, y0: usize, x1: usize, y1: usize) -> (r: Option<usize>)
    requires
        keys@.len() == w * h,
        x0 <= x1 < w,
        y0 <= y1 < h,
    ensures
        r is None <==> forall|x: int, y: int|
            x0 <= x <= x1 && y0 <= y <= y1 ==> #[trigger] keys@[at(w as int, x, y)] == 0,
        r matches Some(i) ==> {
            &&& i < keys@.len()
            &&& keys@[i as int] > 0
            &&& exists|x: int, y: int|
                x0 <= x <= x1 && y0 <= y <= y1 && i == #[trigger] at(w as int, x, y)
            &&& forall|x: int, y: int|
                x0 <= x <= x1 && y0 <= y <= y1 ==> #[trigger] keys@[at(w as int, x, y)] <= keys@[i as int]
            &&& forall|x: int, y: int|
                x0 <= x <= x1 && y0 <= y <= y1 && at(w as int, x, y) < i ==> #[trigger] keys@[at(w as int, x, y)]
                    < keys@[i as int]
        },
{
    let ghost (wi, hi) = (w as int, h as int);
    let n: usize = keys.len();
    let mut best: u128 = 0;
    let mut found: Option<usize> = None;
    let mut y: usize = y0;
    while y <= y1
        invariant
            wi == w,
            hi == h,
            n == keys@.len() == w * h,
            x0 <= x1 < w,
            y0 <= y <= y1 + 1,
            y1 < h,
            best_so_far(keys@, wi, x0 as int, x1 as int, y0 as int, y1 as int, x0 as int, y as int, best, found),
        decreases y1 + 1 - y,
    {
        let mut x: usize = x0;
        while x <= x1
            invariant
                wi == w,
                hi == h,
                n == keys@.len() == w * h,
                x0 <= x <= x1 + 1,
                x1 < w,
                y0 <= y <= y1,
                y1 < h,
                best_so_far(
                    keys@,
                    wi,
                    x0 as int,
                    x1 as int,
                    y0 as int,
                    y1 as int,
                    x as int,
                    y as int,
                    best,
                    found,
                ),
            decreases x1 + 1 - x,
        {
            proof {
                lemma_at_bound(wi, hi, x as int, y as int);
                assert forall|a: int, b: int|
                    x0 <= a <= x1 && y0 <= b <= y1 && #[trigger] at(wi, a, b) < at(wi, x as int, y as int) implies b < y
                    || (b == y && a < x) by {
                    if b > y {
                        assert(b * wi + a > y * wi + x) by (nonlinear_arith)
                            requires
                                b > y,
                                0 <= a,
                                0 <= x < wi,
                        ;
                    }
                }
            }
            let i: usize = y * w + x;
            if keys[i] > best {
                best = keys[i];
                found = Some(i);
                assert(i == at(wi, x as int, y as int));
            }
            x += 1;
        }
        y += 1;
    }
    proof {
        if found is None {
            assert forall|x: int, y: int| x0 <= x <= x1 && y0 <= y <= y1 implies #[trigger] keys@[at(wi, x, y)] == 0 by {}
        }
    }
    found
}

/// The best of the pixels read before `(x, y)`.
spec fn best_so_far(
    keys: Seq<u128>,
    w: int,
    x0: int,
    x1: int,
    y0: int,
    y1: int,
    x: int,
    y: int,
    best: u128,
    found: Option<usize>,
) -> bool {
    &&& forall|a: int, b: int|
        x0 <= a <= x1 && y0 <= b <= y1 && (b < y || (b == y && a < x)) ==> #[trigger] keys[at(w, a, b)] <= best
    &&& match found {
        None => best == 0,
        Some(i) => {
            &&& i < keys.len()
            &&& best > 0
            &&& keys[i as int] == best
            &&& exists|a: int, b: int| x0 <= a <= x1 && y0 <= b <= y1 && i == #[trigger] at(w, a, b)
            &&& forall|a: int, b: int|
                x0 <= a <= x1 && y0 <= b <= y1 && at(w, a, b) < i ==> #[trigger] keys[at(w, a, b)] < best
        },
    }
}

} // verus!

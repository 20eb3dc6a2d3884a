//! Connected pixels: what can be reached from where, and the search for it.
use vstd::prelude::*;

use crate::cutout::morphology::BitPlane;
use crate::geometry::{at, lemma_at_bound, lemma_at_join, lemma_at_split};

verus! {

/// Two different places of a plane that is `w` wide share a side or, where
/// diagonals count, a corner.
pub open spec fn touching(w: int, diagonal: bool, i: int, j: int) -> bool {
    let dx = i % w - j % w;
    let dy = i / w - j / w;
    if diagonal {
        i != j && -1 <= dx <= 1 && -1 <= dy <= 1
    } else {
        (dx == 0 && (dy == 1 || dy == -1)) || (dy == 0 && (dx == 1 || dx == -1))
    }
}

/// A walk over open places, each step to a touching one.
pub open spec fn is_path(w: int, diagonal: bool, open: Seq<bool>, path: Seq<int>) -> bool {
    &&& path.len() > 0
    &&& forall|k: int| 0 <= k < path.len() ==> 0 <= #[trigger] path[k] < open.len() && open[path[k]]
    &&& forall|k: int, l: int|
        0 <= k && l == k + 1 && l < path.len() ==> touching(w, diagonal, #[trigger] path[k], #[trigger] path[l])
}

/// Some walk over open places leads from `a` to `b`.
pub open spec fn joined(w: int, diagonal: bool, open: Seq<bool>, a: int, b: int) -> bool {
    exists|path: Seq<int>| #[trigger]
        is_path(w, diagonal, open, path) && path[0] == a && path.last() == b
}

/// The places that a walk from `a` can reach.
pub open spec fn component(w: int, diagonal: bool, open: Seq<bool>, a: int) -> Set<int> {
    Set::new(|b: int| joined(w, diagonal, open, a, b))
}

/// An open place reaches itself.
pub proof fn lemma_joined_here(w: int, diagonal: bool, open: Seq<bool>, a: int)
    requires
        0 <= a < open.len(),
        open[a],
    ensures
        joined(w, diagonal, open, a, a),
{
    let path = seq![a];
    assert(is_path(w, diagonal, open, path));
    assert(path[0] == a && path.last() == a);
}

/// What is joined is open.
pub proof fn lemma_joined_open(w: int, diagonal: bool, open: Seq<bool>, a: int, b: int)
    requires
        joined(w, diagonal, open, a, b),
    ensures
        0 <= a < open.len() && open[a],
        0 <= b < open.len() && open[b],
{
    let path = choose|path: Seq<int>| #[trigger]
        is_path(w, diagonal, open, path) && path[0] == a && path.last() == b;
    assert(path[path.len() - 1] == b);
}

/// One more step.
pub proof fn lemma_joined_step(w: int, diagonal: bool, open: Seq<bool>, a: int, b: int, c: int)
    requires
        joined(w, diagonal, open, a, b),
        touching(w, diagonal, b, c),
        0 <= c < open.len(),
        open[c],
    ensures
        joined(w, diagonal, open, a, c),
{
    let path = choose|path: Seq<int>| #[trigger]
        is_path(w, diagonal, open, path) && path[0] == a && path.last() == b;
    let longer = path.push(c);
    assert forall|k: int, l: int| 0 <= k && l == k + 1 && l < longer.len() implies touching(
        w,
        diagonal,
        #[trigger] longer[k],
        #[trigger] longer[l],
    ) by {
        if l < path.len() {
            assert(longer[k] == path[k] && longer[l] == path[l]);
        } else {
            assert(longer[k] == path.last());
        }
    }
    assert(is_path(w, diagonal, open, longer));
    assert(longer[0] == a && longer.last() == c);
}

/// Walks can be walked backwards.
pub proof fn lemma_joined_back(w: int, diagonal: bool, open: Seq<bool>, a: int, b: int)
    requires
        joined(w, diagonal, open, a, b),
    ensures
        joined(w, diagonal, open, b, a),
{
    let path = choose|path: Seq<int>| #[trigger]
        is_path(w, diagonal, open, path) && path[0] == a && path.last() == b;
    let back = Seq::new(path.len(), |k: int| path[path.len() - 1 - k]);
    assert forall|k: int, l: int| 0 <= k && l == k + 1 && l < back.len() implies touching(
        w,
        diagonal,
        #[trigger] back[k],
        #[trigger] back[l],
    ) by {
        assert(touching(w, diagonal, path[path.len() - 1 - l], path[path.len() - 1 - k]));
    }
    assert(is_path(w, diagonal, open, back));
    assert(back[0] == b && back.last() == a);
}

/// A set that holds `a` and every open place touching one of its own holds
/// whatever `a` reaches.
pub proof fn lemma_joined_within(w: int, diagonal: bool, open: Seq<bool>, a: int, b: int, s: Set<int>)
    requires
        joined(w, diagonal, open, a, b),
        s.contains(a),
        forall|p: int, q: int|
            s.contains(p) && 0 <= q < open.len() && open[q] && #[trigger] touching(w, diagonal, p, q)
                ==> s.contains(q),
    ensures
        s.contains(b),
{
    let path = choose|path: Seq<int>| #[trigger]
        is_path(w, diagonal, open, path) && path[0] == a && path.last() == b;
    lemma_path_within(w, diagonal, open, path, s, path.len() - 1);
}

proof fn lemma_path_within(w: int, diagonal: bool, open: Seq<bool>, path: Seq<int>, s: Set<int>, k: int)
    requires
        is_path(w, diagonal, open, path),
        0 <= k < path.len(),
        s.contains(path[0]),
        forall|p: int, q: int|
            s.contains(p) && 0 <= q < open.len() && open[q] && #[trigger] touching(w, diagonal, p, q)
                ==> s.contains(q),
    ensures
        s.contains(path[k]),
    decreases k,
{
    if k > 0 {
        lemma_path_within(w, diagonal, open, path, s, k - 1);
        assert(touching(w, diagonal, path[k - 1], path[k]));
    }
}

/// Walks can be joined end to end.
pub proof fn lemma_joined_through(w: int, diagonal: bool, open: Seq<bool>, a: int, b: int, c: int)
    requires
        joined(w, diagonal, open, a, b),
        joined(w, diagonal, open, b, c),
    ensures
        joined(w, diagonal, open, a, c),
{
    let s = component(w, diagonal, open, a);
    assert forall|p: int, q: int|
        s.contains(p) && 0 <= q < open.len() && open[q] && #[trigger] touching(w, diagonal, p, q)
        implies s.contains(q) by {
        lemma_joined_step(w, diagonal, open, a, p, q);
    }
    lemma_joined_within(w, diagonal, open, b, c, s);
}

/// Opening more places breaks no walk.
pub proof fn lemma_joined_more(w: int, diagonal: bool, open: Seq<bool>, wider: Seq<bool>, a: int, b: int)
    requires
        joined(w, diagonal, open, a, b),
        open.len() == wider.len(),
        forall|i: int| 0 <= i < open.len() && #[trigger] open[i] ==> wider[i],
    ensures
        joined(w, diagonal, wider, a, b),
{
    let path = choose|path: Seq<int>| #[trigger]
        is_path(w, diagonal, open, path) && path[0] == a && path.last() == b;
    assert(is_path(w, diagonal, wider, path));
}

/// Different numbers below `n` are at most `n`.
pub proof fn lemma_distinct_below(s: Seq<int>, n: nat)
    requires
        s.no_duplicates(),
        forall|k: int| 0 <= k < s.len() ==> 0 <= #[trigger] s[k] < n,
    ensures
        s.len() <= n,
{
    s.unique_seq_to_set();
    let r = vstd::set_lib::set_int_range(0, n as int);
    vstd::set_lib::lemma_int_range(0, n as int);
    assert(s.to_set().subset_of(r));
    vstd::set_lib::lemma_len_subset(s.to_set(), r);
}

/// The numbers of `s` as integers.
pub open spec fn ints(s: Seq<usize>) -> Seq<int> {
    s.map_values(|v: usize| v as int)
}

/// Some seed reaches `b`.
pub open spec fn from_seed(w: int, diagonal: bool, open: Seq<bool>, seeds: Seq<usize>, b: int) -> bool {
    exists|s: int| 0 <= s < seeds.len() && joined(w, diagonal, open, #[trigger] seeds[s] as int, b)
}

/// What a search may have found so far: its seeds first, each place once, every
/// place open and joined to a seed, nothing but seeds that was marked before it
/// began, and the marks now being those of before and those of the finds.
#[verifier::opaque]
pub open spec fn search_ok(
    w: int,
    diagonal: bool,
    open: Seq<bool>,
    marked: Seq<bool>,
    seen: Seq<bool>,
    seeds: Seq<usize>,
    found: Seq<usize>,
) -> bool {
    &&& seen.len() == open.len() == marked.len()
    &&& seeds.len() <= found.len()
    &&& found.subrange(0, seeds.len() as int) == seeds
    &&& found.no_duplicates()
    &&& forall|k: int| 0 <= k < found.len() ==> (#[trigger] found[k]) < open.len() && open[found[k] as int]
    &&& forall|k: int| seeds.len() <= k < found.len() ==> !marked[(#[trigger] found[k]) as int]
    &&& forall|k: int|
        0 <= k < found.len() ==> from_seed(w, diagonal, open, seeds, (#[trigger] found[k]) as int)
    &&& forall|i: int|
        0 <= i < seen.len() ==> (#[trigger] seen[i] <==> marked[i] || found.contains(i as usize))
}

/// Every open place touching one of the first `n` found has been marked.
#[verifier::opaque]
pub open spec fn searched(w: int, diagonal: bool, open: Seq<bool>, seen: Seq<bool>, found: Seq<usize>, n: int) -> bool {
    forall|k: int, j: int|
        0 <= k < n && 0 <= j < open.len() && open[j] && #[trigger] touching(w, diagonal, found[k] as int, j)
            ==> seen[j]
}

proof fn lemma_search_starts(w: int, diagonal: bool, open: Seq<bool>, marked: Seq<bool>, seeds: Seq<usize>)
    requires
        open.len() == marked.len() <= usize::MAX,
        seeds.no_duplicates(),
        forall|k: int|
            0 <= k < seeds.len() ==> (#[trigger] seeds[k]) < open.len() && open[seeds[k] as int]
                && marked[seeds[k] as int],
    ensures
        search_ok(w, diagonal, open, marked, marked, seeds, seeds),
        searched(w, diagonal, open, marked, seeds, 0),
        seeds.len() <= open.len(),
{
    reveal(search_ok);
    reveal(searched);
    assert(seeds.subrange(0, seeds.len() as int) =~= seeds);
    assert forall|k: int| 0 <= k < seeds.len() implies from_seed(
        w,
        diagonal,
        open,
        seeds,
        (#[trigger] seeds[k]) as int,
    ) by {
        lemma_joined_here(w, diagonal, open, seeds[k] as int);
        assert(joined(w, diagonal, open, seeds[k] as int, seeds[k] as int));
    }
    assert forall|i: int| 0 <= i < marked.len() implies (#[trigger] marked[i] <==> marked[i] || seeds.contains(
        i as usize,
    )) by {
        if seeds.contains(i as usize) {
            let k = choose|k: int| 0 <= k < seeds.len() && seeds[k] == i as usize;
            assert(marked[seeds[k] as int]);
        }
    }
    lemma_distinct_ints(seeds);
    lemma_distinct_below(ints(seeds), open.len());
}

proof fn lemma_distinct_ints(s: Seq<usize>)
    requires
        s.no_duplicates(),
    ensures
        ints(s).no_duplicates(),
{
    assert forall|k: int, l: int| 0 <= k < s.len() && 0 <= l < s.len() && k != l implies ints(s)[k] != ints(s)[l] by {
        assert(s[k] != s[l]);
    }
}

/// Marking and appending one more place that touches a found one.
proof fn lemma_search_grows(
    w: int,
    diagonal: bool,
    open: Seq<bool>,
    marked: Seq<bool>,
    was: Seq<bool>,
    seeds: Seq<usize>,
    had: Seq<usize>,
    head: int,
    j: usize,
)
    requires
        search_ok(w, diagonal, open, marked, was, seeds, had),
        searched(w, diagonal, open, was, had, head),
        0 <= head < had.len(),
        j < open.len(),
        open[j as int],
        !was[j as int],
        touching(w, diagonal, had[head] as int, j as int),
        open.len() <= usize::MAX,
    ensures
        search_ok(w, diagonal, open, marked, was.update(j as int, true), seeds, had.push(j)),
        searched(w, diagonal, open, was.update(j as int, true), had.push(j), head),
        had.push(j).len() <= open.len(),
{
    reveal(search_ok);
    reveal(searched);
    let found = had.push(j);
    let seen = was.update(j as int, true);
    assert(!had.contains(j)) by {
        assert(!was[j as int]);
    }
    assert(found.subrange(0, seeds.len() as int) =~= had.subrange(0, seeds.len() as int));
    assert(from_seed(w, diagonal, open, seeds, had[head] as int));
    let s = choose|s: int|
        0 <= s < seeds.len() && joined(w, diagonal, open, #[trigger] seeds[s] as int, had[head] as int);
    lemma_joined_step(w, diagonal, open, seeds[s] as int, had[head] as int, j as int);
    assert forall|k: int| 0 <= k < found.len() implies from_seed(
        w,
        diagonal,
        open,
        seeds,
        (#[trigger] found[k]) as int,
    ) by {
        if k < had.len() {
            assert(found[k] == had[k]);
        } else {
            assert(joined(w, diagonal, open, seeds[s] as int, found[k] as int));
        }
    }
    assert forall|i: int| 0 <= i < seen.len() implies (#[trigger] seen[i] <==> marked[i] || found.contains(
        i as usize,
    )) by {
        if i == j {
            assert(found[had.len() as int] == i as usize);
        } else {
            assert(seen[i] == was[i]);
            if had.contains(i as usize) {
                let k = choose|k: int| 0 <= k < had.len() && had[k] == i as usize;
                assert(found[k] == i as usize);
            }
            if found.contains(i as usize) {
                let k = choose|k: int| 0 <= k < found.len() && found[k] == i as usize;
                assert(had[k] == i as usize);
            }
        }
    }
    assert forall|k: int, l: int|
        0 <= k < head && 0 <= l < open.len() && open[l] && #[trigger] touching(w, diagonal, found[k] as int, l)
        implies seen[l] by {
        assert(found[k] == had[k]);
        assert(was[l]);
    }
    lemma_distinct_ints(found);
    lemma_distinct_below(ints(found), open.len());
}

/// Collects the places of the plane that touch place `i`.
fn touching_places(w: usize, h: usize, i: usize, diagonal: bool, out: &mut Vec<usize>)
    requires
        w * h <= usize::MAX,
        i < w * h,
    ensures
        forall|k: int|
            0 <= k < final(out)@.len() ==> (#[trigger] final(out)@[k]) < w * h && touching(
                w as int,
                diagonal,
                i as int,
                final(out)@[k] as int,
            ),
        forall|j: int|
            0 <= j < w * h && #[trigger] touching(w as int, diagonal, i as int, j) ==> final(out)@.contains(
                j as usize,
            ),
{
    out.clear();
    let ghost wi = w as int;
    let ghost hi = h as int;
    proof {
        assert(0 < w) by (nonlinear_arith)
            requires
                i < w * h,
                0 <= i,
                0 <= w,
        ;
        lemma_at_join(wi, hi, i as int);
    }
    let x: usize = i % w;
    let y: usize = i / w;
    let x0: usize = if x == 0 { 0 } else { x - 1 };
    let y0: usize = if y == 0 { 0 } else { y - 1 };
    let x1: usize = if x + 1 < w { x + 1 } else { x };
    let y1: usize = if y + 1 < h { y + 1 } else { y };
    let mut ny: usize = y0;
    while ny <= y1
        invariant
            w * h <= usize::MAX,
            wi == w,
            hi == h,
            x == i % w,
            y == i / w,
            x < w,
            y < h,
            at(wi, x as int, y as int) == i,
            x0 == if x == 0 { 0 } else { x - 1 },
            y0 == if y == 0 { 0 } else { y - 1 },
            x1 == if x + 1 < w { x + 1 } else { x as int },
            y1 == if y + 1 < h { y + 1 } else { y as int },
            y0 <= ny <= y1 + 1,
            forall|k: int|
                0 <= k < out@.len() ==> (#[trigger] out@[k]) < w * h && touching(
                    wi,
                    diagonal,
                    i as int,
                    out@[k] as int,
                ),
            forall|j: int|
                0 <= j < w * h && #[trigger] touching(wi, diagonal, i as int, j) && j / wi < ny ==> out@.contains(
                    j as usize,
                ),
        decreases y1 + 1 - ny,
    {
        let mut nx: usize = x0;
        while nx <= x1
            invariant
                w * h <= usize::MAX,
                wi == w,
                hi == h,
                x == i % w,
                y == i / w,
                x < w,
                y < h,
                at(wi, x as int, y as int) == i,
                x0 == if x == 0 { 0 } else { x - 1 },
                y0 == if y == 0 { 0 } else { y - 1 },
                x1 == if x + 1 < w { x + 1 } else { x as int },
                y1 == if y + 1 < h { y + 1 } else { y as int },
                y0 <= ny <= y1,
                x0 <= nx <= x1 + 1,
                forall|k: int|
                    0 <= k < out@.len() ==> (#[trigger] out@[k]) < w * h && touching(
                        wi,
                        diagonal,
                        i as int,
                        out@[k] as int,
                    ),
                forall|j: int|
                    0 <= j < w * h && #[trigger] touching(wi, diagonal, i as int, j) && (j / wi < ny || (j / wi
                        == ny && j % wi < nx)) ==> out@.contains(j as usize),
            decreases x1 + 1 - nx,
        {
            proof {
                lemma_at_bound(wi, hi, nx as int, ny as int);
                lemma_at_split(wi, nx as int, ny as int);
            }
            let j: usize = ny * w + nx;
            let ghost had = out@;
            if (nx != x || ny != y) && (diagonal || nx == x || ny == y) {
                out.push(j);
                assert(out@[had.len() as int] == j);
            }
            proof {
                assert forall|q: int|
                    0 <= q < w * h && #[trigger] touching(wi, diagonal, i as int, q) && (q / wi < ny || (q / wi
                        == ny && q % wi < nx + 1)) implies out@.contains(q as usize) by {
                    lemma_at_join(wi, hi, q);
                    if q / wi == ny && q % wi == nx {
                        assert(q == j);
                    } else {
                        let k = choose|k: int| 0 <= k < had.len() && had[k] == q as usize;
                        assert(out@[k] == q as usize);
                    }
                }
            }
            nx += 1;
        }
        proof {
            assert forall|q: int|
                0 <= q < w * h && #[trigger] touching(wi, diagonal, i as int, q) && q / wi < ny + 1
                implies out@.contains(q as usize) by {
                lemma_at_join(wi, hi, q);
            }
        }
        ny += 1;
    }
    proof {
        assert forall|q: int| 0 <= q < w * h && #[trigger] touching(wi, diagonal, i as int, q) implies out@.contains(
            q as usize,
        ) by {
            lemma_at_join(wi, hi, q);
        }
    }
}

/// Searches breadth first from `seeds` over the open places of a plane, marks
/// in `seen` what it reaches and returns it, the seeds first.
///
/// What `seen` marks beforehand is taken as visited and is not entered.
#[verifier::rlimit(60)]
pub fn flood(w: usize, h: usize, open: &BitPlane, diagonal: bool, seen: &mut BitPlane, seeds: Vec<usize>) -> (found: Vec<
    usize,
>)
    requires
        w * h <= usize::MAX,
        open.wf(),
        open@.len() == w * h,
        old(seen).wf(),
        old(seen)@.len() == w * h,
        seeds@.no_duplicates(),
        forall|k: int|
            0 <= k < seeds@.len() ==> (#[trigger] seeds@[k]) < w * h && open@[seeds@[k] as int]
                && old(seen)@[seeds@[k] as int],
    ensures
        final(seen).wf(),
        final(seen)@.len() == w * h,
        search_ok(w as int, diagonal, open@, old(seen)@, final(seen)@, seeds@, found@),
        searched(w as int, diagonal, open@, final(seen)@, found@, found@.len() as int),
{
    let ghost marked = seen@;
    let ghost first = seeds@;
    let ghost wi = w as int;
    proof {
        lemma_search_starts(wi, diagonal, open@, marked, first);
    }
    let mut found: Vec<usize> = seeds;
    let mut near: Vec<usize> = Vec::new();
    let mut head: usize = 0;
    while head < found.len()
        invariant
            w * h <= usize::MAX,
            wi == w,
            open.wf(),
            open@.len() == w * h,
            seen.wf(),
            seen@.len() == w * h,
            head <= found@.len() <= w * h,
            search_ok(wi, diagonal, open@, marked, seen@, first, found@),
            searched(wi, diagonal, open@, seen@, found@, head as int),
        decreases w * h - head,
    {
        let i: usize = found[head];
        assert(i < w * h) by {
            reveal(search_ok);
        }
        touching_places(w, h, i, diagonal, &mut near);
        let mut k: usize = 0;
        while k < near.len()
            invariant
                w * h <= usize::MAX,
                wi == w,
                open.wf(),
                open@.len() == w * h,
                seen.wf(),
                seen@.len() == w * h,
                head < found@.len() <= w * h,
                found@[head as int] == i,
                k <= near@.len(),
                search_ok(wi, diagonal, open@, marked, seen@, first, found@),
                searched(wi, diagonal, open@, seen@, found@, head as int),
                forall|a: int|
                    0 <= a < near@.len() ==> (#[trigger] near@[a]) < w * h && touching(
                        wi,
                        diagonal,
                        i as int,
                        near@[a] as int,
                    ),
                forall|a: int| 0 <= a < k && open@[(#[trigger] near@[a]) as int] ==> seen@[near@[a] as int],
            decreases near@.len() - k,
        {
            let j: usize = near[k];
            if open.get(j) && !seen.get(j) {
                proof {
                    lemma_search_grows(wi, diagonal, open@, marked, seen@, first, found@, head as int, j);
                }
                seen.insert(j);
                found.push(j);
            }
            k += 1;
        }
        proof {
            reveal(searched);
            assert forall|a: int, j: int|
                0 <= a < head + 1 && 0 <= j < open@.len() && open@[j] && #[trigger] touching(
                    wi,
                    diagonal,
                    found@[a] as int,
                    j,
                ) implies seen@[j] by {
                if a == head {
                    assert(near@.contains(j as usize));
                    let b = choose|b: int| 0 <= b < near@.len() && near@[b] == j as usize;
                    assert(seen@[near@[b] as int]);
                }
            }
        }
        head += 1;
    }
    found
}

/// `marks` holds whole components only.
pub open spec fn whole(w: int, diagonal: bool, open: Seq<bool>, marks: Seq<bool>) -> bool {
    forall|i: int, j: int|
        0 <= i < marks.len() && marks[i] && #[trigger] joined(w, diagonal, open, i, j) ==> marks[j]
}

/// A search from one unmarked place finds exactly its component.
pub proof fn lemma_found_component(
    w: int,
    diagonal: bool,
    open: Seq<bool>,
    marked: Seq<bool>,
    first: Seq<bool>,
    seen: Seq<bool>,
    start: usize,
    found: Seq<usize>,
)
    requires
        start < open.len() <= usize::MAX,
        open.len() == marked.len(),
        !marked[start as int],
        first == marked.update(start as int, true),
        whole(w, diagonal, open, marked),
        search_ok(w, diagonal, open, first, seen, seq![start], found),
        searched(w, diagonal, open, seen, found, found.len() as int),
    ensures
        forall|j: int|
            0 <= j < open.len() ==> (found.contains(j as usize) <==> #[trigger] joined(w, diagonal, open, start as int, j)),
        whole(w, diagonal, open, seen),
{
    reveal(search_ok);
    reveal(searched);
    let a = start as int;
    let s = Set::new(|j: int| 0 <= j < open.len() && found.contains(j as usize));
    assert(found[0] == found.subrange(0, 1)[0]);
    assert(s.contains(a));
    assert forall|j: int| s.contains(j) implies joined(w, diagonal, open, a, j) by {
        let k = choose|k: int| 0 <= k < found.len() && found[k] == j as usize;
        assert(seq![start][0] == start);
    }
    assert forall|p: int, q: int|
        s.contains(p) && 0 <= q < open.len() && open[q] && #[trigger] touching(w, diagonal, p, q)
        implies s.contains(q) by {
        let k = choose|k: int| 0 <= k < found.len() && found[k] == p as usize;
        assert(touching(w, diagonal, found[k] as int, q));
        assert(seen[q]);
        if first[q] && q != a {
            lemma_joined_step(w, diagonal, open, a, p, q);
            lemma_joined_back(w, diagonal, open, a, q);
            assert(marked[a]);
        }
    }
    assert forall|j: int| 0 <= j < open.len() implies (found.contains(j as usize) <==> #[trigger] joined(
        w,
        diagonal,
        open,
        a,
        j,
    )) by {
        if joined(w, diagonal, open, a, j) {
            lemma_joined_within(w, diagonal, open, a, j, s);
        }
        if found.contains(j as usize) {
            assert(s.contains(j));
        }
    }
    assert forall|i: int, j: int| 0 <= i < seen.len() && seen[i] && #[trigger] joined(w, diagonal, open, i, j) implies seen[j] by {
        lemma_joined_open(w, diagonal, open, i, j);
        if found.contains(i as usize) {
            assert(joined(w, diagonal, open, a, i));
            lemma_joined_through(w, diagonal, open, a, i, j);
            assert(found.contains(j as usize));
        } else {
            assert(marked[i]);
            assert(marked[j]);
            assert(first[j]);
        }
    }
}

/// A list holds one component, each place once.
pub open spec fn is_component(w: int, diagonal: bool, open: Seq<bool>, c: Seq<usize>) -> bool {
    &&& c.len() > 0
    &&& c.no_duplicates()
    &&& forall|k: int| 0 <= k < c.len() ==> (#[trigger] c[k]) < open.len()
    &&& forall|j: int|
        0 <= j < open.len() ==> (c.contains(j as usize) <==> #[trigger] joined(w, diagonal, open, c[0] as int, j))
    &&& forall|k: int| 0 <= k < c.len() ==> c[0] <= #[trigger] c[k]
}

/// The connected components, by their first place. Each list starts with it.
pub fn components(w: usize, h: usize, open: &BitPlane, diagonal: bool) -> (r: Vec<Vec<usize>>)
    requires
        w * h <= usize::MAX,
        open.wf(),
        open@.len() == w * h,
    ensures
        forall|k: int| 0 <= k < r@.len() ==> is_component(w as int, diagonal, open@, (#[trigger] r@[k])@),
        forall|i: int|
            0 <= i < open@.len() && #[trigger] open@[i] ==> exists|k: int|
                0 <= k < r@.len() && (#[trigger] r@[k])@.contains(i as usize),
        forall|k: int, l: int| 0 <= k < l < r@.len() ==> (#[trigger] r@[k])@[0] < (#[trigger] r@[l])@[0],
{
    let n: usize = open.len();
    let ghost wi = w as int;
    let mut visited: BitPlane = BitPlane::new(n);
    let mut r: Vec<Vec<usize>> = Vec::new();
    let mut start: usize = 0;
    while start < n
        invariant
            wi == w,
            w * h <= usize::MAX,
            open.wf(),
            n == open@.len() == w * h,
            visited.wf(),
            visited@.len() == n,
            start <= n,
            whole(wi, diagonal, open@, visited@),
            forall|i: int| 0 <= i < start && #[trigger] open@[i] ==> visited@[i],
            forall|k: int| 0 <= k < r@.len() ==> is_component(wi, diagonal, open@, (#[trigger] r@[k])@),
            forall|k: int| 0 <= k < r@.len() ==> (#[trigger] r@[k])@[0] < start,
            forall|i: int|
                0 <= i < n && #[trigger] visited@[i] ==> exists|k: int|
                    0 <= k < r@.len() && (#[trigger] r@[k])@.contains(i as usize),
            forall|k: int, l: int| 0 <= k < l < r@.len() ==> (#[trigger] r@[k])@[0] < (#[trigger] r@[l])@[0],
        decreases n - start,
    {
        if open.get(start) && !visited.get(start) {
            let ghost marked = visited@;
            let ghost had = r@;
            visited.insert(start);
            let seeds: Vec<usize> = vec![start];
            let ghost first = visited@;
            assert(seeds@ =~= seq![start]);
            let found: Vec<usize> = flood(w, h, open, diagonal, &mut visited, seeds);
            proof {
                lemma_found_component(wi, diagonal, open@, marked, first, visited@, start, found@);
                assert(found@.no_duplicates() && forall|k: int|
                    0 <= k < found@.len() ==> (#[trigger] found@[k]) < n) by {
                    reveal(search_ok);
                }
                lemma_joined_here(wi, diagonal, open@, start as int);
                assert(found@.contains(start));
                assert(found@[0] == start) by {
                    reveal(search_ok);
                    assert(found@.subrange(0, 1)[0] == found@[0]);
                    assert(seq![start][0] == start);
                }
                assert forall|i: int| 0 <= i < n implies #[trigger] visited@[i] == (marked[i] || found@.contains(
                    i as usize,
                )) by {
                    reveal(search_ok);
                }
                assert forall|k: int| 0 <= k < found@.len() implies found@[0] <= #[trigger] found@[k] by {
                    let j = found@[k] as int;
                    assert(found@.contains(found@[k]));
                    assert(joined(wi, diagonal, open@, start as int, j));
                    lemma_joined_open(wi, diagonal, open@, start as int, j);
                    lemma_joined_back(wi, diagonal, open@, start as int, j);
                    if j < start {
                        assert(open@[j]);
                        assert(marked[j]);
                        assert(marked[start as int]);
                    }
                }
            }
            r.push(found);
            proof {
                assert(r@[had.len() as int] == found);
                assert forall|i: int| 0 <= i < n && #[trigger] visited@[i] implies exists|k: int|
                    0 <= k < r@.len() && (#[trigger] r@[k])@.contains(i as usize) by {
                    if marked[i] {
                        let k = choose|k: int| 0 <= k < had.len() && (#[trigger] had[k])@.contains(i as usize);
                        assert(r@[k] == had[k]);
                    } else {
                        assert(r@[had.len() as int]@.contains(i as usize));
                    }
                }
            }
        }
        start += 1;
    }
    r
}

/// A listed component as a set.
pub proof fn lemma_component_list(w: int, diagonal: bool, open: Seq<bool>, c: Seq<usize>, i: int)
    requires
        open.len() <= usize::MAX,
        is_component(w, diagonal, open, c),
        0 <= i < open.len(),
        c.contains(i as usize),
    ensures
        component(w, diagonal, open, i) == ints(c).to_set(),
        component(w, diagonal, open, i).finite(),
        component(w, diagonal, open, i).len() == c.len(),
        component(w, diagonal, open, i) == component(w, diagonal, open, c[0] as int),
        open[i],
{
    let a = c[0] as int;
    let s = ints(c);
    assert(joined(w, diagonal, open, a, i));
    lemma_joined_open(w, diagonal, open, a, i);
    lemma_joined_back(w, diagonal, open, a, i);
    assert forall|j: int| component(w, diagonal, open, i).contains(j) <==> s.to_set().contains(j) by {
        if joined(w, diagonal, open, i, j) {
            lemma_joined_open(w, diagonal, open, i, j);
            lemma_joined_through(w, diagonal, open, a, i, j);
            assert(c.contains(j as usize));
            let k = choose|k: int| 0 <= k < c.len() && c[k] == j as usize;
            assert(s[k] == j);
        }
        if s.to_set().contains(j) {
            let k = choose|k: int| 0 <= k < s.len() && s[k] == j;
            assert(c[k] == j);
            assert(c.contains(j as usize));
            assert(joined(w, diagonal, open, a, j));
            lemma_joined_through(w, diagonal, open, i, a, j);
        }
    }
    assert(component(w, diagonal, open, i) =~= s.to_set());
    assert(s.no_duplicates());
    s.unique_seq_to_set();
    assert forall|j: int| component(w, diagonal, open, i).contains(j) <==> component(w, diagonal, open, a).contains(j) by {
        if joined(w, diagonal, open, i, j) {
            lemma_joined_through(w, diagonal, open, a, i, j);
        }
        if joined(w, diagonal, open, a, j) {
            lemma_joined_through(w, diagonal, open, i, a, j);
        }
    }
    assert(component(w, diagonal, open, i) =~= component(w, diagonal, open, a));
}

} // verus!

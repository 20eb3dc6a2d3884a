//! Walks over a picture, from pixel to pixel, as the laws speak of them.
use vstd::prelude::*;

use crate::cutout::connect::{is_path, joined, lemma_joined_step, lemma_joined_here, touching};
use crate::geometry::{at, lemma_at_bound, lemma_at_join, lemma_at_split};
use crate::sums::{lemma_rect_step, lemma_row_step, lemma_sum_step, rect_sum, row_sum, sum};
use crate::tally::tally;

verus! {

/// Two pixels share a side.
pub open spec fn side_by_side(p: (int, int), q: (int, int)) -> bool {
    (p.0 == q.0 && (p.1 - q.1 == 1 || q.1 - p.1 == 1)) || (p.1 == q.1 && (p.0 - q.0 == 1 || q.0 - p.0 == 1))
}

/// Two different pixels share a side or a corner.
pub open spec fn corner_to_corner(p: (int, int), q: (int, int)) -> bool {
    p != q && -1 <= p.0 - q.0 <= 1 && -1 <= p.1 - q.1 <= 1
}

/// A walk from side to side over pixels of which `ground` holds.
pub open spec fn is_walk(ground: spec_fn(int, int) -> bool, path: Seq<(int, int)>) -> bool {
    &&& path.len() > 0
    &&& forall|k: int| 0 <= k < path.len() ==> #[trigger] ground(path[k].0, path[k].1)
    &&& forall|k: int, l: int|
        0 <= k && l == k + 1 && l < path.len() ==> side_by_side(#[trigger] path[k], #[trigger] path[l])
}

/// The same where corners may be crossed.
pub open spec fn is_free_walk(ground: spec_fn(int, int) -> bool, path: Seq<(int, int)>) -> bool {
    &&& path.len() > 0
    &&& forall|k: int| 0 <= k < path.len() ==> #[trigger] ground(path[k].0, path[k].1)
    &&& forall|k: int, l: int|
        0 <= k && l == k + 1 && l < path.len() ==> corner_to_corner(#[trigger] path[k], #[trigger] path[l])
}

/// Nothing of which `ground` holds lies beside the region without belonging to it.
pub open spec fn walled_in(ground: spec_fn(int, int) -> bool, region: spec_fn(int, int) -> bool) -> bool {
    forall|x: int, y: int, u: int, v: int|
        #[trigger] region(x, y) && ground(x, y) && #[trigger] ground(u, v) && side_by_side((x, y), (u, v))
            ==> region(u, v)
}

/// The same where corners count.
pub open spec fn walled_in_freely(ground: spec_fn(int, int) -> bool, region: spec_fn(int, int) -> bool) -> bool {
    forall|x: int, y: int, u: int, v: int|
        #[trigger] region(x, y) && ground(x, y) && #[trigger] ground(u, v) && corner_to_corner((x, y), (u, v))
            ==> region(u, v)
}

/// `open` says of each place of a plane what `ground` says of its pixel, and
/// `ground` holds of no pixel outside.
pub open spec fn maps(w: int, h: int, open: Seq<bool>, ground: spec_fn(int, int) -> bool) -> bool {
    &&& 0 < w
    &&& open.len() == w * h
    &&& forall|x: int, y: int| #[trigger] ground(x, y) ==> 0 <= x < w && 0 <= y < h
    &&& forall|x: int, y: int| 0 <= x < w && 0 <= y < h ==> open[y * w + x] == #[trigger] ground(x, y)
}

pub proof fn lemma_touching_pixels(w: int, h: int, diagonal: bool, i: int, j: int)
    requires
        0 < w,
        0 <= i < w * h,
        0 <= j < w * h,
    ensures
        touching(w, diagonal, i, j) == if diagonal {
            corner_to_corner((i % w, i / w), (j % w, j / w))
        } else {
            side_by_side((i % w, i / w), (j % w, j / w))
        },
{
    lemma_at_join(w, h, i);
    lemma_at_join(w, h, j);
}

/// A walk leads from place to place.
pub proof fn lemma_walk_joins(
    w: int,
    h: int,
    diagonal: bool,
    open: Seq<bool>,
    ground: spec_fn(int, int) -> bool,
    path: Seq<(int, int)>,
)
    requires
        maps(w, h, open, ground),
        if diagonal {
            is_free_walk(ground, path)
        } else {
            is_walk(ground, path)
        },
    ensures
        joined(w, diagonal, open, at(w, path[0].0, path[0].1), at(w, path.last().0, path.last().1)),
    decreases path.len(),
{
    let end = path.last();
    assert(ground(path[path.len() - 1].0, path[path.len() - 1].1));
    lemma_at_bound(w, h, end.0, end.1);
    lemma_at_split(w, end.0, end.1);
    if path.len() == 1 {
        lemma_joined_here(w, diagonal, open, at(w, end.0, end.1));
    } else {
        let shorter = path.drop_last();
        assert forall|k: int| 0 <= k < shorter.len() implies #[trigger] ground(shorter[k].0, shorter[k].1) by {
            assert(ground(path[k].0, path[k].1));
        }
        lemma_walk_joins(w, h, diagonal, open, ground, shorter);
        let prior = shorter.last();
        assert(prior == path[path.len() - 2]);
        assert(ground(path[path.len() - 2].0, path[path.len() - 2].1));
        lemma_at_bound(w, h, prior.0, prior.1);
        lemma_at_split(w, prior.0, prior.1);
        lemma_touching_pixels(w, h, diagonal, at(w, prior.0, prior.1), at(w, end.0, end.1));
        assert(touching(w, diagonal, at(w, prior.0, prior.1), at(w, end.0, end.1)));
        lemma_joined_step(
            w,
            diagonal,
            open,
            at(w, path[0].0, path[0].1),
            at(w, prior.0, prior.1),
            at(w, end.0, end.1),
        );
    }
}

/// What leads from place to place is a walk.
pub proof fn lemma_joined_is_walk(
    w: int,
    h: int,
    diagonal: bool,
    open: Seq<bool>,
    ground: spec_fn(int, int) -> bool,
    i: int,
    j: int,
) -> (path: Seq<(int, int)>)
    requires
        maps(w, h, open, ground),
        joined(w, diagonal, open, i, j),
    ensures
        if diagonal {
            is_free_walk(ground, path)
        } else {
            is_walk(ground, path)
        },
        path[0] == (i % w, i / w),
        path.last() == (j % w, j / w),
        0 <= i < w * h,
        0 <= j < w * h,
{
    let places = choose|places: Seq<int>| #[trigger]
        is_path(w, diagonal, open, places) && places[0] == i && places.last() == j;
    let path = Seq::new(places.len(), |k: int| (places[k] % w, places[k] / w));
    assert forall|k: int| 0 <= k < path.len() implies #[trigger] ground(path[k].0, path[k].1) by {
        lemma_at_join(w, h, places[k]);
        assert(open[places[k]]);
        assert(open[path[k].1 * w + path[k].0] == ground(path[k].0, path[k].1));
    }
    assert forall|k: int, l: int| 0 <= k && l == k + 1 && l < path.len() implies if diagonal {
        corner_to_corner(#[trigger] path[k], #[trigger] path[l])
    } else {
        side_by_side(path[k], path[l])
    } by {
        assert(touching(w, diagonal, places[k], places[l]));
        lemma_touching_pixels(w, h, diagonal, places[k], places[l]);
    }
    assert(places[places.len() - 1] == j);
    path
}

/// No walk leaves a region that is walled in.
pub proof fn lemma_walk_stays(
    diagonal: bool,
    ground: spec_fn(int, int) -> bool,
    region: spec_fn(int, int) -> bool,
    path: Seq<(int, int)>,
    k: int,
)
    requires
        if diagonal {
            is_free_walk(ground, path) && walled_in_freely(ground, region)
        } else {
            is_walk(ground, path) && walled_in(ground, region)
        },
        region(path[0].0, path[0].1),
        0 <= k < path.len(),
    ensures
        region(path[k].0, path[k].1),
    decreases k,
{
    if k > 0 {
        lemma_walk_stays(diagonal, ground, region, path, k - 1);
        assert(ground(path[k - 1].0, path[k - 1].1));
        assert(ground(path[k].0, path[k].1));
        if diagonal {
            assert(corner_to_corner(path[k - 1], path[k]));
        } else {
            assert(side_by_side(path[k - 1], path[k]));
        }
    }
}

/// The count of what is set is the number of places that are.
pub proof fn lemma_tally_counts(s: Seq<bool>, places: Set<int>)
    requires
        forall|i: int| #[trigger] places.contains(i) <==> 0 <= i < s.len() && s[i],
    ensures
        places.finite(),
        places.len() == tally(s),
    decreases s.len(),
{
    if s.len() == 0 {
        assert(places =~= Set::empty());
    } else {
        let n = s.len() - 1;
        let t = s.drop_last();
        let fewer = places.remove(n);
        assert forall|i: int| #[trigger] fewer.contains(i) <==> 0 <= i < t.len() && t[i] by {
            assert(places.contains(i) <==> 0 <= i < s.len() && s[i]);
        }
        lemma_tally_counts(t, fewer);
        if s[n] {
            assert(places.contains(n));
            assert(places =~= fewer.insert(n));
        } else {
            assert(!places.contains(n));
            assert(places =~= fewer);
        }
    }
}

/// There are as many places as pixels.
pub proof fn lemma_pixels_count(w: int, h: int, places: Set<int>, pixels: Set<(int, int)>)
    requires
        0 < w,
        forall|i: int| #[trigger] places.contains(i) ==> 0 <= i < w * h,
        forall|p: (int, int)| #[trigger]
            pixels.contains(p) <==> 0 <= p.0 < w && 0 <= p.1 < h && places.contains(at(w, p.0, p.1)),
    ensures
        places.finite() <==> pixels.finite(),
        places.len() == pixels.len() || !places.finite(),
{
    let f = |i: int| (i % w, i / w);
    let g = |p: (int, int)| at(w, p.0, p.1);
    assert forall|i: int| #[trigger] places.contains(i) implies pixels.contains(f(i)) by {
        lemma_at_join(w, h, i);
    }
    if places.finite() {
        assert(places.map(f) =~= pixels) by {
            assert forall|p: (int, int)| pixels.contains(p) implies #[trigger] places.map(f).contains(p) by {
                lemma_at_split(w, p.0, p.1);
                assert(places.contains(at(w, p.0, p.1)) && f(at(w, p.0, p.1)) == p);
            }
        }
        assert(vstd::relations::injective_on(f, places)) by {
            assert forall|i: int, j: int| places.contains(i) && places.contains(j) && f(i) == f(j) implies i == j by {
                lemma_at_join(w, h, i);
                lemma_at_join(w, h, j);
            }
        }
        vstd::set_lib::lemma_map_size(places, pixels, f);
    }
    if pixels.finite() {
        assert(pixels.map(g) =~= places) by {
            assert forall|i: int| places.contains(i) implies #[trigger] pixels.map(g).contains(i) by {
                lemma_at_join(w, h, i);
                assert(pixels.contains(f(i)) && g(f(i)) == i);
            }
        }
        pixels.lemma_map_finite(g);
    }
}

/// The sum over a plane is the sum over its rows of the sums over their pixels.
pub proof fn lemma_plane_sum(s: Seq<int>, w: int, h: int, g: spec_fn(int, int) -> int)
    requires
        0 < w,
        0 <= h,
        s.len() == w * h,
        forall|x: int, y: int| 0 <= x < w && 0 <= y < h ==> #[trigger] g(x, y) == s[y * w + x],
    ensures
        sum(s) == rect_sum(g, 0, w, 0, h),
{
    lemma_rows_sum(s, w, h, g, h);
    assert(s.take(h * w) =~= s) by {
        assert(h * w == w * h) by (nonlinear_arith);
    }
}

proof fn lemma_rows_sum(s: Seq<int>, w: int, h: int, g: spec_fn(int, int) -> int, y: int)
    requires
        0 < w,
        0 <= y <= h,
        s.len() == w * h,
        forall|u: int, v: int| 0 <= u < w && 0 <= v < h ==> #[trigger] g(u, v) == s[v * w + u],
    ensures
        0 <= y * w <= w * h,
        sum(s.take(y * w)) == rect_sum(g, 0, w, 0, y),
    decreases y,
{
    assert(0 <= y * w <= w * h) by (nonlinear_arith)
        requires
            0 < w,
            0 <= y <= h,
    ;
    if y == 0 {
        assert(y * w == 0) by (nonlinear_arith)
            requires
                y == 0,
        ;
        assert(s.take(y * w) =~= Seq::empty());
    } else {
        lemma_rows_sum(s, w, h, g, y - 1);
        lemma_rect_step(g, 0, w, 0, y - 1);
        lemma_columns_sum(s, w, h, g, y - 1, w);
        assert((y - 1) * w + w == y * w) by (nonlinear_arith);
    }
}

proof fn lemma_columns_sum(s: Seq<int>, w: int, h: int, g: spec_fn(int, int) -> int, y: int, x: int)
    requires
        0 < w,
        0 <= y < h,
        0 <= x <= w,
        s.len() == w * h,
        forall|u: int, v: int| 0 <= u < w && 0 <= v < h ==> #[trigger] g(u, v) == s[v * w + u],
    ensures
        0 <= y * w,
        y * w + x <= w * h,
        sum(s.take(y * w + x)) == sum(s.take(y * w)) + row_sum(g, 0, x, y),
    decreases x,
{
    assert(0 <= y * w && y * w + x <= w * h) by (nonlinear_arith)
        requires
            0 < w,
            0 <= y < h,
            0 <= x <= w,
    ;
    if x > 0 {
        lemma_columns_sum(s, w, h, g, y, x - 1);
        lemma_row_step(g, 0, x - 1, y);
        lemma_sum_step(s, y * w + x - 1);
        assert(g(x - 1, y) == s[y * w + (x - 1)]);
    }
}

} // verus!

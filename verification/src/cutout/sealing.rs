//! Closing narrow gaps through which the fill has got in.
//!
//! A contour with a breach lets the fill into the product. Breaches are narrow, so
//! background counts only if it can be walked to over background that is wide
//! enough for the seal, or lies within the seal of such.
use vstd::prelude::*;

use crate::cutout::connect::{joined, lemma_joined_more};
use crate::cutout::morphology::{in_window, separable, window_has, windowed, BitPlane};
use crate::cutout::reshape::{both, either, lemma_windowed_plane, walk};
use crate::geometry::{at, lemma_at_bound, on_plane};

verus! {

/// Background with nothing else within the seal. What lies outside the image does
/// not count.
pub open spec fn wide_enough(bg: Seq<bool>, w: int, h: int, seal: int) -> Seq<bool> {
    Seq::new(bg.len(), |i: int| windowed(bg, w, h, seal, seal, i % w, i / w, false))
}

/// Where a walk may go: over wide background, and where it starts.
pub open spec fn walkable(bg: Seq<bool>, w: int, h: int, seal: int, start: Seq<bool>) -> Seq<bool> {
    Seq::new(bg.len(), |i: int| wide_enough(bg, w, h, seal)[i] || start[i])
}

/// The wide background that can be walked to.
pub open spec fn hearts(bg: Seq<bool>, w: int, h: int, seal: int, start: Seq<bool>) -> Seq<bool> {
    Seq::new(
        bg.len(),
        |i: int|
            wide_enough(bg, w, h, seal)[i] && exists|s: int|
                0 <= s < start.len() && start[s] && #[trigger] joined(w, false, walkable(bg, w, h, seal, start), s, i),
    )
}

/// Place `i` lies within the seal of such background.
pub open spec fn opens(bg: Seq<bool>, w: int, h: int, seal: int, start: Seq<bool>, i: int) -> bool {
    windowed(hearts(bg, w, h, seal, start), w, h, seal, seal, i % w, i / w, true)
}

/// Tells which places lie within the seal of wide background that can be walked to
/// from where the walk starts.
pub fn seal_narrow_gaps(w: usize, h: usize, bg: &BitPlane, start: BitPlane, seal: u32) -> (r: BitPlane)
    requires
        0 < w,
        0 < h,
        w * h <= usize::MAX,
        bg.wf(),
        start.wf(),
        bg@.len() == start@.len() == w * h,
    ensures
        r.wf(),
        r@.len() == bg@.len(),
        forall|i: int|
            0 <= i < r@.len() ==> #[trigger] r@[i] == opens(bg@, w as int, h as int, seal as int, start@, i),
{
    let ghost (wi, hi, s) = (w as int, h as int, seal as int);
    let ghost st = start@;
    let wide: BitPlane = separable(w, h, bg, seal, false);
    proof {
        lemma_windowed_plane(wide@, bg@, wi, hi, s, false);
        assert(wide@ =~= wide_enough(bg@, wi, hi, s));
    }
    let open: BitPlane = either(&wide, &start);
    assert(open@ =~= walkable(bg@, wi, hi, s, st));
    let walked: BitPlane = walk(w, h, &open, start);
    let core: BitPlane = both(&wide, &walked);
    assert(core@ =~= hearts(bg@, wi, hi, s, st));
    let r: BitPlane = separable(w, h, &core, seal, true);
    proof {
        lemma_windowed_plane(r@, core@, wi, hi, s, true);
    }
    r
}

/// More background and more starts open no less.
pub proof fn lemma_opens_more(
    few: Seq<bool>,
    many: Seq<bool>,
    w: int,
    h: int,
    seal: int,
    first: Seq<bool>,
    second: Seq<bool>,
    i: int,
)
    requires
        few.len() == many.len() == first.len() == second.len() == w * h,
        forall|k: int| 0 <= k < few.len() && #[trigger] few[k] ==> many[k],
        forall|k: int| 0 <= k < first.len() && #[trigger] first[k] ==> second[k],
        opens(few, w, h, seal, first, i),
    ensures
        opens(many, w, h, seal, second, i),
{
    assert forall|k: int| 0 <= k < few.len() && #[trigger] wide_enough(few, w, h, seal)[k] implies wide_enough(
        many,
        w,
        h,
        seal,
    )[k] by {
        if window_has(many, w, h, seal, seal, k % w, k / w, false) {
            let (u, v) = choose|u: int, v: int|
                on_plane(w, h, u, v) && in_window(seal, seal, k % w, k / w, u, v) && #[trigger] many[at(w, u, v)]
                    == false;
            lemma_at_bound(w, h, u, v);
            assert(few[at(w, u, v)] == false);
            assert(window_has(few, w, h, seal, seal, k % w, k / w, false));
        }
    }
    let (a, b) = (walkable(few, w, h, seal, first), walkable(many, w, h, seal, second));
    let (p, q) = (hearts(few, w, h, seal, first), hearts(many, w, h, seal, second));
    assert forall|k: int| 0 <= k < a.len() && #[trigger] a[k] implies b[k] by {
        assert(wide_enough(few, w, h, seal)[k] || first[k]);
    }
    let (u, v) = choose|u: int, v: int|
        on_plane(w, h, u, v) && in_window(seal, seal, i % w, i / w, u, v) && #[trigger] p[at(w, u, v)] == true;
    lemma_at_bound(w, h, u, v);
    let j = at(w, u, v);
    assert(wide_enough(few, w, h, seal)[j]);
    let s = choose|s: int| 0 <= s < first.len() && first[s] && #[trigger] joined(w, false, a, s, j);
    lemma_joined_more(w, false, a, b, s, j);
    assert(second[s]);
    assert(q[j]);
    assert(window_has(q, w, h, seal, seal, i % w, i / w, true));
}

} // verus!

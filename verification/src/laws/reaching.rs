//! Laws of what the fill reaches, told in pixels and walks.
use vstd::prelude::*;

use crate::cutout::connect::{joined, lemma_joined_back, lemma_joined_here, lemma_joined_open};
use crate::cutout::constraints::{disc, in_disc};
use crate::cutout::floodfill::{
    beyond, candidates_of, fills, flooded, protects, start_rect, starts, stays, sure_ground, FloodOptions,
};
use crate::cutout::morphology::{in_window, window_has};
use crate::cutout::sealing::{hearts, opens, walkable, wide_enough};
use crate::geometry::{at, lemma_at_bound, lemma_at_join, lemma_at_split, on_plane};
use crate::laws::walks::{is_walk, lemma_joined_is_walk, lemma_walk_joins, lemma_walk_stays, maps, walled_in};
use crate::raster::RgbaImage;

verus! {

/// The user has pointed at the pixel: it lies within five pixels of a seed on the
/// image, or carries a mark of foreground made for an image of this size.
pub open spec fn pointed_at(image: &RgbaImage, opts: &FloodOptions<'_>, x: int, y: int) -> bool {
    ||| exists|k: int|
        0 <= k < opts.fg_seeds@.len() && (#[trigger] opts.fg_seeds@[k]).0 < image.w() && opts.fg_seeds@[k].1 < image.h()
            && (x - opts.fg_seeds@[k].0) * (x - opts.fg_seeds@[k].0) + (y - opts.fg_seeds@[k].1) * (y
            - opts.fg_seeds@[k].1) <= 25
    ||| opts.constraints matches Some(c) && c.w() == image.w() && c.h() == image.h() && c.fg()[y * image.w() + x]
}

/// The pixel carries a mark of background made for an image of this size.
pub open spec fn waved_off(image: &RgbaImage, opts: &FloodOptions<'_>, x: int, y: int) -> bool {
    opts.constraints matches Some(c) && c.w() == image.w() && c.h() == image.h() && c.bg()[y * image.w() + x]
}

/// The pixel passes for background: nobody has pointed at it, and it is waved off,
/// transparent, or close to the background in colour and on no edge.
pub open spec fn passes(
    image: &RgbaImage,
    delta: Seq<u64>,
    gradient: Seq<u64>,
    opts: &FloodOptions<'_>,
    x: int,
    y: int,
) -> bool {
    let i = y * image.w() + x;
    &&& 0 <= x < image.w()
    &&& 0 <= y < image.h()
    &&& !pointed_at(image, opts, x, y)
    &&& {
        ||| waved_off(image, opts, x, y)
        ||| image@[i][3] == 0
        ||| delta[i] <= opts.tolerance && (opts.edge_threshold == 0 || gradient[i] <= opts.edge_threshold)
    }
}

/// The pixel lies on one of the four sides of the box, or of the image where there
/// is no box.
pub open spec fn on_a_side(image: &RgbaImage, opts: &FloodOptions<'_>, x: int, y: int) -> bool {
    match opts.bbox {
        Some(r) => {
            ||| x == r.0 && r.1 <= y <= r.3
            ||| x == r.2 && r.1 <= y <= r.3
            ||| y == r.1 && r.0 <= x <= r.2
            ||| y == r.3 && r.0 <= x <= r.2
        },
        None => x == 0 || x == image.w() - 1 || y == 0 || y == image.h() - 1,
    }
}

/// The pixel lies in the box, or there is none.
pub open spec fn boxed_in(opts: &FloodOptions<'_>, x: int, y: int) -> bool {
    opts.bbox matches Some(r) ==> r.0 <= x && x <= r.2 && r.1 <= y && y <= r.3
}

proof fn lemma_vocabulary(
    image: &RgbaImage,
    delta: Seq<u64>,
    gradient: Seq<u64>,
    opts: &FloodOptions<'_>,
    x: int,
    y: int,
)
    requires
        image.wf(),
        0 <= x < image.w(),
        0 <= y < image.h(),
    ensures
        0 <= at(image.w() as int, x, y) < image@.len(),
        at(image.w() as int, x, y) == y * image.w() + x,
        opts.keeps(image.w(), image.h(), at(image.w() as int, x, y)) == pointed_at(image, opts, x, y),
        opts.drops(image.w(), image.h(), at(image.w() as int, x, y)) == waved_off(image, opts, x, y),
        candidates_of(image, delta, gradient, opts)[at(image.w() as int, x, y)] == passes(
            image,
            delta,
            gradient,
            opts,
            x,
            y,
        ),
        beyond(image, opts, at(image.w() as int, x, y)) == !boxed_in(opts, x, y),
        (opts.bbox matches Some(r) ==> r.0 <= r.2 && r.1 <= r.3) ==> starts(
            image.w() as int,
            start_rect(image.w(), image.h(), opts.bbox),
            opts.dropped(image.w(), image.h(), image@.len()),
            at(image.w() as int, x, y),
        ) == (on_a_side(image, opts, x, y) || waved_off(image, opts, x, y)),
{
    let (w, h) = (image.w() as int, image.h() as int);
    let i = at(w, x, y);
    lemma_at_bound(w, h, x, y);
    lemma_at_split(w, x, y);
    if opts.bbox is None && 0 < w && 0 < h {
        assert(start_rect(image.w(), image.h(), opts.bbox).2 == w - 1);
    }
    let seeds = opts.fg_seeds@;
    if protects(image.w(), image.h(), seeds, i) {
        let k = choose|k: int|
            0 <= k < seeds.len() && disc(image.w(), image.h(), (#[trigger] seeds[k]).0, seeds[k].1, 5)[i];
        assert(in_disc(seeds[k].0 as int, seeds[k].1 as int, 5, x, y));
        assert(pointed_at(image, opts, x, y));
    }
    if pointed_at(image, opts, x, y) && !opts.keeps(image.w(), image.h(), i) {
        let k = choose|k: int|
            0 <= k < opts.fg_seeds@.len() && (#[trigger] opts.fg_seeds@[k]).0 < image.w() && opts.fg_seeds@[k].1
                < image.h() && (x - opts.fg_seeds@[k].0) * (x - opts.fg_seeds@[k].0) + (y - opts.fg_seeds@[k].1) * (y
                - opts.fg_seeds@[k].1) <= 25;
        assert(disc(image.w(), image.h(), seeds[k].0, seeds[k].1, 5)[i]);
    }
}

/// The candidates are the pixels that pass.
proof fn lemma_candidates(image: &RgbaImage, delta: Seq<u64>, gradient: Seq<u64>, opts: &FloodOptions<'_>)
    requires
        image.wf(),
        0 < image.w(),
    ensures
        maps(
            image.w() as int,
            image.h() as int,
            candidates_of(image, delta, gradient, opts),
            |x: int, y: int| passes(image, delta, gradient, opts, x, y),
        ),
{
    let ground = |x: int, y: int| passes(image, delta, gradient, opts, x, y);
    let open = candidates_of(image, delta, gradient, opts);
    assert forall|x: int, y: int| 0 <= x < image.w() && 0 <= y < image.h() implies open[y * image.w() as int + x]
        == #[trigger] ground(x, y) by {
        lemma_vocabulary(image, delta, gradient, opts, x, y);
    }
}

/// The fill comes in from all four sides of the box, or of the image, and from
/// every pixel that is waved off, and goes from side to side over all that passes
/// for background: without a seal, whatever a walk reaches so is background.
pub proof fn law_the_fill_reaches_what_a_walk_reaches(
    image: &RgbaImage,
    delta: Seq<u64>,
    gradient: Seq<u64>,
    opts: &FloodOptions<'_>,
    path: Seq<(int, int)>,
)
    requires
        image.wf(),
        opts.seal == 0,
        opts.bbox matches Some(r) ==> r.0 <= r.2 && r.2 < image.w() && r.1 <= r.3 && r.3 < image.h(),
        is_walk(|x: int, y: int| passes(image, delta, gradient, opts, x, y), path),
        on_a_side(image, opts, path[0].0, path[0].1) || waved_off(image, opts, path[0].0, path[0].1),
    ensures
        !stays(image, delta, gradient, opts, path.last().1 * image.w() + path.last().0),
{
    let ground = |x: int, y: int| passes(image, delta, gradient, opts, x, y);
    let w = image.w() as int;
    assert(ground(path[0].0, path[0].1));
    assert(ground(path[path.len() - 1].0, path[path.len() - 1].1));
    lemma_candidates(image, delta, gradient, opts);
    lemma_walk_joins(w, image.h() as int, false, candidates_of(image, delta, gradient, opts), ground, path);
    lemma_vocabulary(image, delta, gradient, opts, path[0].0, path[0].1);
    lemma_vocabulary(image, delta, gradient, opts, path.last().0, path.last().1);
    assert(fills(image, delta, gradient, opts, at(w, path.last().0, path.last().1)));
}

/// A pixel of any of the four sides that passes for background is background, if
/// there is no seal.
pub proof fn law_every_side_lets_the_fill_in(
    image: &RgbaImage,
    delta: Seq<u64>,
    gradient: Seq<u64>,
    opts: &FloodOptions<'_>,
    x: int,
    y: int,
)
    requires
        image.wf(),
        opts.seal == 0,
        opts.bbox matches Some(r) ==> r.0 <= r.2 && r.2 < image.w() && r.1 <= r.3 && r.3 < image.h(),
        passes(image, delta, gradient, opts, x, y),
        match opts.bbox {
            Some(r) => r.0 <= x && x <= r.2 && r.1 <= y && y <= r.3 && (x == r.0 || x == r.2 || y == r.1 || y == r.3),
            None => x == 0 || x == image.w() - 1 || y == 0 || y == image.h() - 1,
        },
    ensures
        !stays(image, delta, gradient, opts, y * image.w() + x),
{
    law_the_fill_reaches_what_a_walk_reaches(image, delta, gradient, opts, seq![(x, y)]);
}

/// The fill goes nowhere else. Take a region of the box that no pixel which passes
/// for background borders on by a side from without: if the region holds none on a
/// side of the box and none that is waved off, all of it stays. Corners let nothing
/// through.
pub proof fn law_what_no_walk_reaches_stays(
    image: &RgbaImage,
    delta: Seq<u64>,
    gradient: Seq<u64>,
    opts: &FloodOptions<'_>,
    region: spec_fn(int, int) -> bool,
    x: int,
    y: int,
)
    requires
        image.wf(),
        opts.bbox matches Some(r) ==> r.0 <= r.2 && r.2 < image.w() && r.1 <= r.3 && r.3 < image.h(),
        walled_in(|a: int, b: int| passes(image, delta, gradient, opts, a, b), region),
        forall|a: int, b: int|
            #[trigger] region(a, b) && passes(image, delta, gradient, opts, a, b) ==> !on_a_side(image, opts, a, b)
                && !waved_off(image, opts, a, b),
        0 <= x < image.w(),
        0 <= y < image.h(),
        boxed_in(opts, x, y),
        region(x, y),
    ensures
        stays(image, delta, gradient, opts, y * image.w() + x),
{
    let ground = |a: int, b: int| passes(image, delta, gradient, opts, a, b);
    let (w, h) = (image.w() as int, image.h() as int);
    let open = candidates_of(image, delta, gradient, opts);
    lemma_vocabulary(image, delta, gradient, opts, x, y);
    lemma_at_split(w, x, y);
    let i = at(w, x, y);
    if fills(image, delta, gradient, opts, i) {
        let r = start_rect(image.w(), image.h(), opts.bbox);
        let told = opts.dropped(image.w(), image.h(), image@.len());
        let s = choose|s: int|
            0 <= s < open.len() && starts(w, r, told, s) && #[trigger] joined(w, false, open, s, i);
        lemma_candidates(image, delta, gradient, opts);
        lemma_joined_back(w, false, open, s, i);
        let path = lemma_joined_is_walk(w, h, false, open, ground, i, s);
        lemma_walk_stays(false, ground, region, path, path.len() - 1);
        lemma_at_join(w, h, s);
        lemma_vocabulary(image, delta, gradient, opts, s % w, s / w);
        assert(ground(path[path.len() - 1].0, path[path.len() - 1].1));
        assert(region(s % w, s / w));
    }
}

/// What the user has pointed at stays. What they wave off goes, and so does all
/// that lies outside the box, unless they have pointed at it.
pub proof fn law_the_user_decides_first(
    image: &RgbaImage,
    delta: Seq<u64>,
    gradient: Seq<u64>,
    opts: &FloodOptions<'_>,
    x: int,
    y: int,
)
    requires
        image.wf(),
        0 <= x < image.w(),
        0 <= y < image.h(),
    ensures
        pointed_at(image, opts, x, y) ==> stays(image, delta, gradient, opts, y * image.w() + x),
        !pointed_at(image, opts, x, y) && waved_off(image, opts, x, y) ==> !stays(
            image,
            delta,
            gradient,
            opts,
            y * image.w() + x,
        ),
        !pointed_at(image, opts, x, y) && !boxed_in(opts, x, y) ==> !stays(
            image,
            delta,
            gradient,
            opts,
            y * image.w() + x,
        ),
{
    let w = image.w() as int;
    lemma_vocabulary(image, delta, gradient, opts, x, y);
    if waved_off(image, opts, x, y) && !pointed_at(image, opts, x, y) {
        let i = at(w, x, y);
        lemma_joined_here(w, false, candidates_of(image, delta, gradient, opts), i);
        assert(fills(image, delta, gradient, opts, i));
    }
}

/// The two differ in the seal alone, which is off in the first.
pub open spec fn sealed_like(off: &FloodOptions<'_>, on: &FloodOptions<'_>) -> bool {
    &&& off.seal == 0
    &&& on.seal > 0
    &&& off.tolerance == on.tolerance
    &&& off.bbox == on.bbox
    &&& off.fg_seeds == on.fg_seeds
    &&& off.edge_threshold == on.edge_threshold
    &&& off.constraints == on.constraints
}

/// The pixel is background as long as nothing is sealed.
pub open spec fn is_ground(
    image: &RgbaImage,
    delta: Seq<u64>,
    gradient: Seq<u64>,
    off: &FloodOptions<'_>,
    x: int,
    y: int,
) -> bool {
    &&& 0 <= x < image.w()
    &&& 0 <= y < image.h()
    &&& !stays(image, delta, gradient, off, y * image.w() + x) || !boxed_in(off, x, y)
}

/// So is all that lies within `s` of it, sideways, up and down, on the image.
pub open spec fn is_roomy(
    image: &RgbaImage,
    delta: Seq<u64>,
    gradient: Seq<u64>,
    off: &FloodOptions<'_>,
    s: int,
    x: int,
    y: int,
) -> bool {
    &&& 0 <= x < image.w()
    &&& 0 <= y < image.h()
    &&& forall|u: int, v: int|
        0 <= u < image.w() && 0 <= v < image.h() && x - s <= u <= x + s && y - s <= v <= y + s ==> #[trigger] is_ground(
            image,
            delta,
            gradient,
            off,
            u,
            v,
        )
}

/// The pixel is background that no gap leads to: on a side, waved off, or outside
/// the box.
pub open spec fn is_entrance(
    image: &RgbaImage,
    delta: Seq<u64>,
    gradient: Seq<u64>,
    off: &FloodOptions<'_>,
    x: int,
    y: int,
) -> bool {
    &&& is_ground(image, delta, gradient, off, x, y)
    &&& on_a_side(image, off, x, y) || waved_off(image, off, x, y) || !boxed_in(off, x, y)
}

proof fn lemma_seal_vocabulary(
    image: &RgbaImage,
    delta: Seq<u64>,
    gradient: Seq<u64>,
    off: &FloodOptions<'_>,
    on: &FloodOptions<'_>,
)
    requires
        image.wf(),
        0 < image.w(),
        sealed_like(off, on),
        off.bbox matches Some(r) ==> r.0 <= r.2 && r.2 < image.w() && r.1 <= r.3 && r.3 < image.h(),
    ensures
        maps(
            image.w() as int,
            image.h() as int,
            flooded(image, delta, gradient, on),
            |x: int, y: int| is_ground(image, delta, gradient, off, x, y),
        ),
        maps(
            image.w() as int,
            image.h() as int,
            sure_ground(image, delta, gradient, on),
            |x: int, y: int| is_entrance(image, delta, gradient, off, x, y),
        ),
        maps(
            image.w() as int,
            image.h() as int,
            wide_enough(
                flooded(image, delta, gradient, on),
                image.w() as int,
                image.h() as int,
                on.seal as int,
            ),
            |x: int, y: int| is_roomy(image, delta, gradient, off, on.seal as int, x, y),
        ),
{
    let (w, h, s) = (image.w() as int, image.h() as int, on.seal as int);
    let bg = flooded(image, delta, gradient, on);
    let st = sure_ground(image, delta, gradient, on);
    let wide = wide_enough(bg, w, h, s);
    let open = candidates_of(image, delta, gradient, on);
    assert(candidates_of(image, delta, gradient, off) =~= open);
    assert(off.dropped(image.w(), image.h(), image@.len()) =~= on.dropped(image.w(), image.h(), image@.len()));
    let ground = |x: int, y: int| is_ground(image, delta, gradient, off, x, y);
    let entrance = |x: int, y: int| is_entrance(image, delta, gradient, off, x, y);
    let roomy = |x: int, y: int| is_roomy(image, delta, gradient, off, s, x, y);
    assert forall|x: int, y: int| 0 <= x < w && 0 <= y < h implies bg[y * w + x] == #[trigger] ground(x, y)
        && st[y * w + x] == entrance(x, y) by {
        lemma_vocabulary(image, delta, gradient, off, x, y);
        lemma_vocabulary(image, delta, gradient, on, x, y);
        let i = at(w, x, y);
        if fills(image, delta, gradient, on, i) {
            let r = start_rect(image.w(), image.h(), on.bbox);
            let told = on.dropped(image.w(), image.h(), image@.len());
            let k = choose|k: int|
                0 <= k < open.len() && starts(w, r, told, k) && #[trigger] joined(w, false, open, k, i);
            lemma_joined_open(w, false, open, k, i);
        }
    }
    assert forall|x: int, y: int| 0 <= x < w && 0 <= y < h implies st[y * w + x] == #[trigger] entrance(x, y) by {
        assert(bg[y * w + x] == ground(x, y));
    }
    assert forall|x: int, y: int| 0 <= x < w && 0 <= y < h implies wide[y * w + x] == #[trigger] roomy(x, y) by {
        lemma_at_bound(w, h, x, y);
        lemma_at_split(w, x, y);
        if window_has(bg, w, h, s, s, x, y, false) {
            let (u, v) = choose|u: int, v: int|
                on_plane(w, h, u, v) && in_window(s, s, x, y, u, v) && #[trigger] bg[at(w, u, v)] == false;
            assert(bg[v * w + u] == ground(u, v));
            assert(!is_ground(image, delta, gradient, off, u, v));
        }
        if !roomy(x, y) {
            let (u, v) = choose|u: int, v: int|
                0 <= u < w && 0 <= v < h && x - s <= u <= x + s && y - s <= v <= y + s && !(#[trigger] is_ground(
                    image,
                    delta,
                    gradient,
                    off,
                    u,
                    v,
                ));
            assert(bg[v * w + u] == ground(u, v));
            assert(bg[at(w, u, v)] == false);
            assert(window_has(bg, w, h, s, s, x, y, false));
        }
    }
}

/// Where the seal fits through, background stays background: over pixels with room
/// for the seal a walk leads from an entrance to one within the seal of the pixel.
pub proof fn law_a_wide_way_stays_open(
    image: &RgbaImage,
    delta: Seq<u64>,
    gradient: Seq<u64>,
    off: &FloodOptions<'_>,
    on: &FloodOptions<'_>,
    path: Seq<(int, int)>,
    x: int,
    y: int,
)
    requires
        image.wf(),
        sealed_like(off, on),
        off.bbox matches Some(r) ==> r.0 <= r.2 && r.2 < image.w() && r.1 <= r.3 && r.3 < image.h(),
        is_walk(
            |u: int, v: int|
                is_roomy(image, delta, gradient, off, on.seal as int, u, v) || is_entrance(
                    image,
                    delta,
                    gradient,
                    off,
                    u,
                    v,
                ),
            path,
        ),
        is_entrance(image, delta, gradient, off, path[0].0, path[0].1),
        is_roomy(image, delta, gradient, off, on.seal as int, path.last().0, path.last().1),
        path.last().0 - on.seal <= x <= path.last().0 + on.seal,
        path.last().1 - on.seal <= y <= path.last().1 + on.seal,
        0 <= x < image.w(),
        0 <= y < image.h(),
        !pointed_at(image, on, x, y),
    ensures
        !stays(image, delta, gradient, on, y * image.w() + x),
{
    let (w, h, s) = (image.w() as int, image.h() as int, on.seal as int);
    let bg = flooded(image, delta, gradient, on);
    let st = sure_ground(image, delta, gradient, on);
    let open = walkable(bg, w, h, s, st);
    let heart = hearts(bg, w, h, s, st);
    let ground = |u: int, v: int|
        is_roomy(image, delta, gradient, off, s, u, v) || is_entrance(image, delta, gradient, off, u, v);
    let (a, b) = (path[0], path.last());
    assert(ground(path[0].0, path[0].1));
    assert(ground(path[path.len() - 1].0, path[path.len() - 1].1));
    lemma_seal_vocabulary(image, delta, gradient, off, on);
    lemma_walkable(image, delta, gradient, off, on);
    lemma_walk_joins(w, h, false, open, ground, path);
    lemma_vocabulary(image, delta, gradient, on, x, y);
    lemma_at_bound(w, h, a.0, a.1);
    lemma_at_bound(w, h, b.0, b.1);
    lemma_at_split(w, x, y);
    let roomy = |u: int, v: int| is_roomy(image, delta, gradient, off, s, u, v);
    let entrance = |u: int, v: int| is_entrance(image, delta, gradient, off, u, v);
    assert(entrance(a.0, a.1) && roomy(b.0, b.1));
    assert(st[at(w, a.0, a.1)]);
    assert(wide_enough(bg, w, h, s)[at(w, b.0, b.1)]);
    assert(joined(w, false, open, at(w, a.0, a.1), at(w, b.0, b.1)));
    assert(heart[at(w, b.0, b.1)]);
    let i = at(w, x, y);
    assert(on_plane(w, h, b.0, b.1) && in_window(s, s, x, y, b.0, b.1));
    assert(window_has(heart, w, h, s, s, x, y, true));
    assert(opens(bg, w, h, s, st, i));
    assert(is_ground(image, delta, gradient, off, x, y));
    let plain = |u: int, v: int| is_ground(image, delta, gradient, off, u, v);
    assert(plain(x, y));
    assert(bg[i]);
}

proof fn lemma_walkable(
    image: &RgbaImage,
    delta: Seq<u64>,
    gradient: Seq<u64>,
    off: &FloodOptions<'_>,
    on: &FloodOptions<'_>,
)
    requires
        image.wf(),
        0 < image.w(),
        sealed_like(off, on),
        off.bbox matches Some(r) ==> r.0 <= r.2 && r.2 < image.w() && r.1 <= r.3 && r.3 < image.h(),
    ensures
        maps(
            image.w() as int,
            image.h() as int,
            walkable(
                flooded(image, delta, gradient, on),
                image.w() as int,
                image.h() as int,
                on.seal as int,
                sure_ground(image, delta, gradient, on),
            ),
            |u: int, v: int|
                is_roomy(image, delta, gradient, off, on.seal as int, u, v) || is_entrance(
                    image,
                    delta,
                    gradient,
                    off,
                    u,
                    v,
                ),
        ),
{
    let (w, h, s) = (image.w() as int, image.h() as int, on.seal as int);
    let bg = flooded(image, delta, gradient, on);
    let st = sure_ground(image, delta, gradient, on);
    let open = walkable(bg, w, h, s, st);
    lemma_seal_vocabulary(image, delta, gradient, off, on);
    let roomy = |u: int, v: int| is_roomy(image, delta, gradient, off, s, u, v);
    let entrance = |u: int, v: int| is_entrance(image, delta, gradient, off, u, v);
    let either = |u: int, v: int|
        is_roomy(image, delta, gradient, off, s, u, v) || is_entrance(image, delta, gradient, off, u, v);
    assert forall|x: int, y: int| 0 <= x < w && 0 <= y < h implies open[y * w + x] == #[trigger] either(x, y) by {
        lemma_at_bound(w, h, x, y);
        assert(wide_enough(bg, w, h, s)[y * w + x] == roomy(x, y));
        assert(st[y * w + x] == entrance(x, y));
    }
}

/// Where the seal does not fit through, the fill is turned back. Take a region that
/// no pixel with room for the seal, and no entrance, borders on from without, and
/// that holds no entrance: what has room for the seal in this region alone, or
/// nowhere, within reach of the seal, stays, unless it is waved off.
pub proof fn law_a_narrow_way_is_sealed(
    image: &RgbaImage,
    delta: Seq<u64>,
    gradient: Seq<u64>,
    off: &FloodOptions<'_>,
    on: &FloodOptions<'_>,
    region: spec_fn(int, int) -> bool,
    x: int,
    y: int,
)
    requires
        image.wf(),
        sealed_like(off, on),
        off.bbox matches Some(r) ==> r.0 <= r.2 && r.2 < image.w() && r.1 <= r.3 && r.3 < image.h(),
        walled_in(
            |u: int, v: int|
                is_roomy(image, delta, gradient, off, on.seal as int, u, v) || is_entrance(
                    image,
                    delta,
                    gradient,
                    off,
                    u,
                    v,
                ),
            region,
        ),
        forall|u: int, v: int| #[trigger] region(u, v) ==> !is_entrance(image, delta, gradient, off, u, v),
        forall|u: int, v: int|
            #[trigger] is_roomy(image, delta, gradient, off, on.seal as int, u, v) && x - on.seal <= u <= x + on.seal
                && y - on.seal <= v <= y + on.seal ==> region(u, v),
        0 <= x < image.w(),
        0 <= y < image.h(),
        boxed_in(on, x, y),
        !waved_off(image, on, x, y),
    ensures
        stays(image, delta, gradient, on, y * image.w() + x),
{
    let (w, h, s) = (image.w() as int, image.h() as int, on.seal as int);
    let bg = flooded(image, delta, gradient, on);
    let st = sure_ground(image, delta, gradient, on);
    let open = walkable(bg, w, h, s, st);
    let heart = hearts(bg, w, h, s, st);
    let ground = |u: int, v: int|
        is_roomy(image, delta, gradient, off, s, u, v) || is_entrance(image, delta, gradient, off, u, v);
    let roomy = |u: int, v: int| is_roomy(image, delta, gradient, off, s, u, v);
    let entrance = |u: int, v: int| is_entrance(image, delta, gradient, off, u, v);
    lemma_seal_vocabulary(image, delta, gradient, off, on);
    lemma_walkable(image, delta, gradient, off, on);
    lemma_vocabulary(image, delta, gradient, on, x, y);
    lemma_at_split(w, x, y);
    let i = at(w, x, y);
    if opens(bg, w, h, s, st, i) {
        let (u, v) = choose|u: int, v: int|
            on_plane(w, h, u, v) && in_window(s, s, x, y, u, v) && #[trigger] heart[at(w, u, v)] == true;
        lemma_at_bound(w, h, u, v);
        lemma_at_split(w, u, v);
        let j = at(w, u, v);
        assert(wide_enough(bg, w, h, s)[v * w + u] == roomy(u, v));
        assert(region(u, v));
        let k = choose|k: int| 0 <= k < st.len() && st[k] && #[trigger] joined(w, false, open, k, j);
        lemma_joined_back(w, false, open, k, j);
        let path = lemma_joined_is_walk(w, h, false, open, ground, j, k);
        lemma_walk_stays(false, ground, region, path, path.len() - 1);
        lemma_at_join(w, h, k);
        assert(st[(k / w) * w + k % w] == entrance(k % w, k / w));
    }
}

} // verus!

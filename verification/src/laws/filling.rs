//! Laws of the fill of the background.
use vstd::prelude::*;

use crate::cutout::connect::{joined, lemma_joined_here, lemma_joined_more, lemma_joined_open};
use crate::cutout::finish::{cleaned_value, CutoutOptions};
use crate::cutout::floodfill::{
    beyond, candidates_of, fills, flooded, reached, start_rect, starts, stays, stays_open, sure_ground, FloodOptions,
};
use crate::cutout::morphology::in_window;
use crate::cutout::sealing::{hearts, lemma_opens_more, opens, wide_enough};
use crate::geometry::{at, lemma_at_bound, on_plane};
use crate::raster::RgbaImage;

verus! {

/// What the user pointed at stays, whatever its colour.
pub proof fn law_protected_pixels_stay(image: &RgbaImage, delta: Seq<u64>, gradient: Seq<u64>, opts: &FloodOptions<'_>, i: int)
    requires
        opts.keeps(image.w(), image.h(), i),
    ensures
        stays(image, delta, gradient, opts, i),
{
}

/// Outside the box nothing stays but what the user pointed at.
pub proof fn law_outside_the_box_is_background(
    image: &RgbaImage,
    delta: Seq<u64>,
    gradient: Seq<u64>,
    opts: &FloodOptions<'_>,
    i: int,
)
    requires
        beyond(image, opts, i),
        !opts.keeps(image.w(), image.h(), i),
    ensures
        !stays(image, delta, gradient, opts, i),
{
}

/// What is marked as background goes, unless it is to stay.
pub proof fn law_marked_background_goes(
    image: &RgbaImage,
    delta: Seq<u64>,
    gradient: Seq<u64>,
    opts: &FloodOptions<'_>,
    i: int,
)
    requires
        0 <= i < image@.len(),
        opts.drops(image.w(), image.h(), i),
        !opts.keeps(image.w(), image.h(), i),
    ensures
        !stays(image, delta, gradient, opts, i),
{
    let w = image.w() as int;
    let open = candidates_of(image, delta, gradient, opts);
    let r = start_rect(image.w(), image.h(), opts.bbox);
    let told = opts.dropped(image.w(), image.h(), image@.len());
    lemma_joined_here(w, false, open, i);
    assert(starts(w, r, told, i));
    assert(fills(image, delta, gradient, opts, i));
}

/// A pixel that is too far from the background, or on an edge, stays in the box
/// unless it was transparent or is marked.
pub proof fn law_what_is_no_candidate_stays(
    image: &RgbaImage,
    delta: Seq<u64>,
    gradient: Seq<u64>,
    opts: &FloodOptions<'_>,
    i: int,
)
    requires
        0 <= i < image@.len(),
        !beyond(image, opts, i),
        image@[i][3] != 0,
        !opts.drops(image.w(), image.h(), i),
        delta[i] > opts.tolerance || (opts.edge_threshold > 0 && gradient[i] > opts.edge_threshold),
    ensures
        stays(image, delta, gradient, opts, i),
{
    let w = image.w() as int;
    let open = candidates_of(image, delta, gradient, opts);
    let r = start_rect(image.w(), image.h(), opts.bbox);
    let told = opts.dropped(image.w(), image.h(), image@.len());
    if reached(w, open, r, told, i) {
        let s = choose|s: int|
            0 <= s < open.len() && starts(w, r, told, s) && #[trigger] joined(w, false, open, s, i);
        lemma_joined_open(w, false, open, s, i);
    }
}

/// A higher tolerance fills no less: what stays with it also stays with the lower
/// one.
pub proof fn law_a_higher_tolerance_fills_no_less(
    image: &RgbaImage,
    delta: Seq<u64>,
    gradient: Seq<u64>,
    low: &FloodOptions<'_>,
    high: &FloodOptions<'_>,
    i: int,
)
    requires
        low.tolerance <= high.tolerance,
        low.bbox == high.bbox,
        low.fg_seeds == high.fg_seeds,
        low.edge_threshold == high.edge_threshold,
        low.constraints == high.constraints,
        low.seal == high.seal,
        image.wf(),
        stays(image, delta, gradient, high, i),
    ensures
        stays(image, delta, gradient, low, i),
{
    let (w, h) = (image.w() as int, image.h() as int);
    let (few, many) = (candidates_of(image, delta, gradient, low), candidates_of(image, delta, gradient, high));
    let r = start_rect(image.w(), image.h(), low.bbox);
    let told = low.dropped(image.w(), image.h(), image@.len());
    assert(told =~= high.dropped(image.w(), image.h(), image@.len()));
    assert forall|k: int| fills(image, delta, gradient, low, k) implies #[trigger] fills(
        image,
        delta,
        gradient,
        high,
        k,
    ) by {
        let s = choose|s: int|
            0 <= s < few.len() && starts(w, r, told, s) && #[trigger] joined(w, false, few, s, k);
        lemma_joined_more(w, false, few, many, s, k);
        assert(reached(w, many, r, told, k));
    }
    if fills(image, delta, gradient, low, i) && stays_open(image, delta, gradient, low, i) && low.seal > 0
        && !low.drops(image.w(), image.h(), i) {
        lemma_opens_more(
            flooded(image, delta, gradient, low),
            flooded(image, delta, gradient, high),
            w,
            h,
            low.seal as int,
            sure_ground(image, delta, gradient, low),
            sure_ground(image, delta, gradient, high),
            i,
        );
    }
}

/// Closing gaps only gives back: what stays without a seal stays with any.
pub proof fn law_a_seal_only_gives_back(
    image: &RgbaImage,
    delta: Seq<u64>,
    gradient: Seq<u64>,
    off: &FloodOptions<'_>,
    on: &FloodOptions<'_>,
    i: int,
)
    requires
        off.seal == 0,
        off.tolerance == on.tolerance,
        off.bbox == on.bbox,
        off.fg_seeds == on.fg_seeds,
        off.edge_threshold == on.edge_threshold,
        off.constraints == on.constraints,
        stays(image, delta, gradient, off, i),
    ensures
        stays(image, delta, gradient, on, i),
{
    assert(candidates_of(image, delta, gradient, off) =~= candidates_of(image, delta, gradient, on));
    assert(off.dropped(image.w(), image.h(), image@.len()) =~= on.dropped(image.w(), image.h(), image@.len()));
}

/// A gap that the seal does not fit in is closed: inside the box a pixel stays if
/// no square of background, twice the seal and one pixel wide, holds it, unless it
/// is marked as background.
pub proof fn law_a_narrow_gap_is_closed(
    image: &RgbaImage,
    delta: Seq<u64>,
    gradient: Seq<u64>,
    opts: &FloodOptions<'_>,
    i: int,
)
    requires
        opts.seal > 0,
        !beyond(image, opts, i),
        !opts.drops(image.w(), image.h(), i),
        ({
            let (w, h, s) = (image.w() as int, image.h() as int, opts.seal as int);
            let wide = wide_enough(flooded(image, delta, gradient, opts), w, h, s);
            forall|u: int, v: int|
                on_plane(w, h, u, v) && in_window(s, s, i % w, i / w, u, v) ==> !(#[trigger] wide[at(w, u, v)])
        }),
        image.wf(),
    ensures
        stays(image, delta, gradient, opts, i),
{
    let (w, h, s) = (image.w() as int, image.h() as int, opts.seal as int);
    let (bg, st) = (flooded(image, delta, gradient, opts), sure_ground(image, delta, gradient, opts));
    if opens(bg, w, h, s, st, i) {
        let heart = hearts(bg, w, h, s, st);
        let (u, v) = choose|u: int, v: int|
            on_plane(w, h, u, v) && in_window(s, s, i % w, i / w, u, v) && #[trigger] heart[at(w, u, v)] == true;
        lemma_at_bound(w, h, u, v);
        assert(wide_enough(bg, w, h, s)[at(w, u, v)]);
    }
}

/// What is forced is opaque after the mask has been cleaned, however small it is.
pub proof fn law_forced_foreground_survives_cleaning(m: Seq<u8>, w: u32, h: u32, opts: &CutoutOptions, i: int)
    requires
        opts.forced(w, h, i),
    ensures
        cleaned_value(m, w, h, opts, i) == 255,
{
}

/// Cleaning takes away, but for what is forced: no other pixel becomes more
/// opaque.
pub proof fn law_cleaning_only_takes_away(m: Seq<u8>, w: u32, h: u32, opts: &CutoutOptions, i: int)
    requires
        !opts.forced(w, h, i),
    ensures
        cleaned_value(m, w, h, opts, i) == m[i] || cleaned_value(m, w, h, opts, i) == 0,
{
}

} // verus!

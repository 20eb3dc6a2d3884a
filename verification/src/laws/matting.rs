//! Laws of the alpha of the boundary.
use vstd::prelude::*;

use crate::cutout::evening::{is_evened, Guide};
use crate::cutout::guided::Solved;
use crate::cutout::matte::{projected, recovered, settled, with_alpha, Answer, Scene};
use crate::cutout::mask::Mask;
use crate::geometry::{at, on_plane};

verus! {

/// Outside the band the two-valued mask is the alpha.
pub proof fn law_outside_the_band_nothing_moves(
    s: &Scene<'_>,
    list: Seq<Answer>,
    x: int,
    y: int,
    was: u8,
    feathered: u8,
    after: u8,
    marked: bool,
    kept: bool,
)
    requires
        projected(s, list, x, y, was, feathered, after, marked, kept),
        s.band@[at(s.w(), x, y)] == 0,
    ensures
        after == was,
        !marked,
{
}

/// Colour has the last word: what it has decided differs from what is feathered
/// exactly by a mark, where marks are kept.
pub proof fn law_marks_tell_who_decided(
    s: &Scene<'_>,
    list: Seq<Answer>,
    x: int,
    y: int,
    feathered: u8,
    after: u8,
    marked: bool,
)
    requires
        settled(s, list, x, y, feathered, after, marked, true),
    ensures
        !marked ==> s.undecided(x, y) && after == feathered,
        marked ==> exists|j: int|
            0 <= j < list.len() && (#[trigger] list[j]).x == x && list[j].y == y && after == list[j].alpha,
{
}

/// The colour of a transparent pixel is not recovered.
pub proof fn law_only_visible_colours_are_recovered(a: Answer, answers: Seq<Answer>, mask: &Mask)
    requires
        recovered(a, answers, mask),
    ensures
        a.alpha != 0,
        a.alpha == mask.px(a.x as int, a.y as int),
{
    let j = choose|j: int| 0 <= j < answers.len() && a == with_alpha(#[trigger] answers[j], mask);
    assert(a == with_alpha(answers[j], mask));
}

/// Nothing is marked where no marks are kept.
pub proof fn law_without_marks_nothing_is_marked(s: Solved, i: int)
    requires
        !s.kept(),
    ensures
        !s.marked(i),
{
}

/// Evening out moves nothing but what colour has decided in the band.
pub proof fn law_evening_moves_only_what_colour_decided(g: &Guide<'_>, solved: &Solved, out: &Mask, x: int, y: int)
    requires
        is_evened(g, solved, out),
        on_plane(g.w(), g.h(), x, y),
        g.wf(),
        g.band@[at(g.w(), x, y)] == 0 || !solved.marked(at(g.w(), x, y)),
    ensures
        out.px(x, y) == g.alpha.px(x, y),
{
}

} // verus!

//! Laws of repainting.
use vstd::prelude::*;

use crate::cutout::cells::lemma_small_place;
use crate::cutout::contour::grown;
use crate::cutout::local_colour::Lean;
use crate::cutout::mask::Mask;
use crate::cutout::repaint::{flipped, Repaint, Reshape, RESHAPE_PASSES};
use crate::cutout::reshape::Gaps;
use crate::geometry::Rect;

verus! {

/// Neither colour nor majority moves a pixel outside the band, nor one that lies
/// too far from the original contour.
pub proof fn law_repainting_stays_in_the_band(r: Repaint<'_>, shape: &Mask, radius: int, i: int)
    requires
        r.fits(shape),
        0 <= i < shape@.len(),
        !r.movable(shape.w() as int, i),
    ensures
        flipped(shape@, r.recoloured(shape))[i] == shape@[i],
        flipped(shape@, r.outvoted(shape, radius))[i] == shape@[i],
{
}

/// A majority alone brings back only what the fill had left foreground.
pub proof fn law_a_majority_invents_no_foreground(r: Repaint<'_>, shape: &Mask, radius: int, i: int)
    requires
        r.fits(shape),
        0 <= i < shape@.len(),
        r.outvoted(shape, radius)[i],
        !shape.fg(i % (shape.w() as int), i / (shape.w() as int)),
    ensures
        r.original.fg(i % (shape.w() as int), i / (shape.w() as int)),
{
}

/// A majority does not stand against colour.
pub proof fn law_a_majority_yields_to_colour(r: Repaint<'_>, shape: &Mask, radius: int, i: int)
    requires
        r.fits(shape),
        0 <= i < shape@.len(),
        r.leans@[i] == if shape.fg(i % (shape.w() as int), i / (shape.w() as int)) {
            Some(Lean::Foreground)
        } else {
            Some(Lean::Background)
        },
    ensures
        !r.outvoted(shape, radius)[i],
        !r.recoloured(shape)[i],
{
}

/// What is closed again lay in the band and was foreground at first.
pub proof fn law_only_foreground_is_closed_again(g: Gaps, shape: &Mask, original: &Mask, band: Seq<u8>, i: int)
    requires
        shape.wf(),
        0 <= i < shape@.len(),
        g.gaps(shape, original, band)[i],
    ensures
        band[i] != 0,
        original.fg(i % (shape.w() as int), i / (shape.w() as int)),
        !shape.fg(i % (shape.w() as int), i / (shape.w() as int)),
{
    lemma_small_place(shape.w() as int, shape.h() as int, i);
}

/// A pass changes nothing outside the band.
pub proof fn law_a_pass_stays_in_the_band(
    start: &Reshape,
    then: &Reshape,
    leans: &[Option<Lean>],
    bounds: Rect,
    band: &[u8],
    middle: &Mask,
    after: &Mask,
    again: bool,
    i: int,
)
    requires
        start.wf(),
        start.one_pass(then, leans, bounds, band, middle, after, again),
        0 <= i < start.now()@.len(),
        start.strip()[i] == 0,
    ensures
        then.now()@[i] == start.now()@[i],
{
    let w = start.now().w() as int;
    let r = start.pass(leans, band, bounds);
    assert(!r.movable(w, i));
    assert(middle@.len() == start.now()@.len());
    assert(middle@[i] == start.now()@[i]);
    assert(after@[i] == middle@[i]);
    if again {
        let (_, _, seal) = start.settings();
        let g = Gaps { roi: grown(bounds, seal + 1, w, start.now().h() as int), seal };
        if g.gaps(after, &start.origin(), start.strip())[i] {
            law_only_foreground_is_closed_again(g, after, &start.origin(), start.strip(), i);
        }
    }
}

/// As long as there is another pass, fewer than the most have been made.
pub proof fn law_passes_are_few(r: &Reshape)
    requires
        r.wf(),
        !r.over(),
    ensures
        r.count() < RESHAPE_PASSES,
{
}

} // verus!

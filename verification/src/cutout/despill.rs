//! Taking the colour of the background out of boundary pixels.
//!
//! A boundary pixel `C` mixes the product `F` with the background `B`: with the
//! coverage `a` it is `C = aF + (1-a)B`, so `F = (C - (1-a)B) / a`.
use vstd::prelude::*;

use crate::cutout::cells::lemma_small_place;
use crate::cutout::mask::Mask;
use crate::geometry::{at, lemma_at_bound, lemma_at_split};
use crate::raster::RgbaImage;

verus! {

/// Below this alpha the division would blow up noise, and the pixel can hardly be
/// seen; it is left alone.
pub const MIN_ALPHA: u8 = 16;

/// A channel of the product, out of one that was observed over the background
/// with coverage `a` of 255: rounded to the nearest and held between 0 and 255.
pub open spec fn recovered(observed: u8, background: u8, a: u8) -> int {
    let n = 255 * observed - (255 - a) * background;
    let r = (2 * n + a) / (2 * a as int);
    if n <= 0 {
        0
    } else if r > 255 {
        255
    } else {
        r
    }
}

/// A pixel after the background has been taken out of it.
pub open spec fn despilled(p: [u8; 4], background: [u8; 3], a: u8, after: [u8; 4]) -> bool {
    if a < MIN_ALPHA || a == 255 {
        after == p
    } else {
        &&& forall|k: int| 0 <= k < 3 ==> #[trigger] after[k] == recovered(p[k], background[k], a)
        &&& after[3] == p[3]
    }
}

fn recover(observed: u8, background: u8, a: u8) -> (r: u8)
    requires
        MIN_ALPHA <= a,
    ensures
        r == recovered(observed, background, a),
{
    assert(0 <= (255 - a) * background <= 255 * 255) by (nonlinear_arith)
        requires
            0 <= a <= 255,
            0 <= background <= 255,
    ;
    let n: i32 = 255 * (observed as i32) - (255 - a as i32) * (background as i32);
    if n <= 0 {
        return 0;
    }
    let r: i32 = (2 * n + a as i32) / (2 * (a as i32));
    if r > 255 {
        255
    } else {
        r as u8
    }
}

/// Takes the background out of every pixel that the mask covers in part. Where the
/// mask reaches beyond the image it is not read.
pub fn despill(image: &mut RgbaImage, mask: &Mask, background: [u8; 3])
    requires
        old(image).wf(),
        mask.wf(),
        old(image).w() <= mask.w(),
        old(image).h() <= mask.h(),
    ensures
        final(image).wf(),
        final(image).w() == old(image).w(),
        final(image).h() == old(image).h(),
        forall|x: int, y: int|
            old(image).inside(x, y) ==> despilled(
                old(image).px(x, y),
                background,
                mask.px(x, y),
                #[trigger] final(image).px(x, y),
            ),
{
    let w: u32 = image.width();
    let ghost (wi, hi) = (image.w() as int, image.h() as int);
    let ghost was = image@;
    let n: usize = image.pixels().len();
    let mut i: usize = 0;
    while i < n
        invariant
            mask.wf(),
            image.wf(),
            wi == w == image.w() <= mask.w(),
            hi == image.h() <= mask.h(),
            n == was.len() == image@.len() == wi * hi,
            i <= n,
            forall|j: int|
                0 <= j < i ==> despilled(was[j], background, mask.px(j % wi, j / wi), #[trigger] image@[j]),
            forall|j: int| i <= j < n ==> #[trigger] image@[j] == was[j],
        decreases n - i,
    {
        proof {
            lemma_small_place(wi, hi, i as int);
        }
        let x: u32 = (i % (w as usize)) as u32;
        let y: u32 = (i / (w as usize)) as u32;
        let a: u8 = mask.get(x, y);
        if a >= MIN_ALPHA && a != 255 {
            let p: [u8; 4] = image.get_pixel(x, y);
            let after: [u8; 4] = [
                recover(p[0], background[0], a),
                recover(p[1], background[1], a),
                recover(p[2], background[2], a),
                p[3],
            ];
            assert(p == was[i as int]);
            image.put_pixel(x, y, after);
            assert(despilled(was[i as int], background, a, after));
        }
        i += 1;
    }
    proof {
        assert forall|x: int, y: int| image.inside(x, y) implies despilled(
            old(image).px(x, y),
            background,
            mask.px(x, y),
            #[trigger] image.px(x, y),
        ) by {
            lemma_at_bound(wi, hi, x, y);
            lemma_at_split(wi, x, y);
            assert(despilled(was[at(wi, x, y)], background, mask.px(x, y), image@[at(wi, x, y)]));
        }
    }
}

} // verus!

//! Laws of mixing and unmixing colours.
use vstd::prelude::*;

use crate::cutout::despill::{despilled, recovered};
use crate::cutout::edges::{interior, lit, ridge, strength};
use crate::cutout::finish::with_lower_alpha;
use crate::cutout::matte::{along, apart, share};
use crate::raster::RgbaImage;

verus! {

/// A colour that was mixed exactly is taken apart exactly: the background leaves
/// no trace.
pub proof fn law_despill_undoes_mixing(product: u8, background: u8, observed: u8, a: u8)
    requires
        0 < a,
        255 * observed == a * product + (255 - a) * background,
    ensures
        recovered(observed, background, a) == product,
{
    let n = 255 * observed - (255 - a) * background;
    assert(n == a * product);
    assert((2 * (a * product) + a) / (2 * a as int) == product) by (nonlinear_arith)
        requires
            0 < a,
            0 <= product,
    ;
    assert(0 <= a * product && (a * product == 0 ==> product == 0)) by (nonlinear_arith)
        requires
            0 < a,
            0 <= product,
    ;
}

/// Where the mask covers a pixel in part, the background goes out of each channel.
/// What is left is the value that mixes best with the background into what was
/// seen. It is black where there was no more light than the background gives, and
/// full where there was too much. Where the mask is nearly nothing or all, the
/// pixel stays as it is; its opacity always does.
pub proof fn law_despill_finds_what_was_mixed_in(p: [u8; 4], background: [u8; 3], a: u8, after: [u8; 4], k: int)
    requires
        despilled(p, background, a, after),
        0 <= k < 3,
    ensures
        after[3] == p[3],
        a < 16 || a == 255 ==> after == p,
        16 <= a < 255 ==> {
            let mixed = a * after[k] + (255 - a) * background[k];
            &&& 255 * p[k] <= (255 - a) * background[k] ==> after[k] == 0
            &&& 255 * p[k] >= a * 255 + (255 - a) * background[k] ==> after[k] == 255
            &&& (255 - a) * background[k] <= 255 * p[k] <= a * 255 + (255 - a) * background[k] ==> 2 * mixed - a <= 2
                * (255 * p[k]) < 2 * mixed + a
        },
{
    if 16 <= a < 255 {
        let (o, b, c) = (p[k] as int, background[k] as int, a as int);
        let n = 255 * o - (255 - c) * b;
        let r = (2 * n + c) / (2 * c);
        assert(after[k] == recovered(p[k], background[k], a));
        assert(2 * (c * r) <= 2 * n + c < 2 * (c * r) + 2 * c) by (nonlinear_arith)
            requires
                r == (2 * n + c) / (2 * c),
                0 < c,
        ;
        assert(n >= 255 * c ==> r >= 255) by (nonlinear_arith)
            requires
                2 * n + c < 2 * (c * r) + 2 * c,
                0 < c,
        ;
        assert(n <= 255 * c ==> r <= 255) by (nonlinear_arith)
            requires
                2 * (c * r) <= 2 * n + c,
                0 < c,
        ;
        if n <= 0 {
            assert(c * after[k] == 0) by (nonlinear_arith)
                requires
                    after[k] == 0,
            ;
        }
    }
}

/// More light in leaves more light, more background leaves less.
pub proof fn law_despill_keeps_the_order(darker: u8, brighter: u8, dim: u8, bright: u8, a: u8)
    requires
        darker <= brighter,
        dim <= bright,
        0 < a,
    ensures
        recovered(darker, dim, a) <= recovered(brighter, dim, a),
        recovered(brighter, bright, a) <= recovered(brighter, dim, a),
        0 <= recovered(darker, dim, a) <= 255,
{
    let c = a as int;
    let n = 255 * darker - (255 - c) * dim;
    let m = 255 * brighter - (255 - c) * dim;
    let l = 255 * brighter - (255 - c) * bright;
    assert(n <= m && l <= m) by (nonlinear_arith)
        requires
            n == 255 * darker - (255 - c) * dim,
            m == 255 * brighter - (255 - c) * dim,
            l == 255 * brighter - (255 - c) * bright,
            darker <= brighter,
            dim <= bright,
            c <= 255,
    ;
    lemma_div_order(2 * n + c, 2 * m + c, 2 * c);
    lemma_div_order(2 * l + c, 2 * m + c, 2 * c);
    lemma_div_order(0, 2 * n + c, 2 * c);
    lemma_div_order(0, 2 * m + c, 2 * c);
    assert(0int / (2 * c) == 0) by (nonlinear_arith)
        requires
            0 < c,
    ;
}

proof fn lemma_div_order(p: int, q: int, n: int)
    requires
        0 < n,
    ensures
        p <= q ==> p / n <= q / n,
{
    if p <= q {
        vstd::arithmetic::div_mod::lemma_div_is_ordered(p, q, n);
    }
}

/// A pixel that mixes the product and what is behind it in the share `a` of 255
/// gets just that alpha.
pub proof fn law_alpha_undoes_mixing(front: [u64; 3], behind: [u64; 3], observed: [u64; 3], a: u8)
    requires
        apart(front, behind) > 0,
        forall|k: int|
            0 <= k < 3 ==> 255 * #[trigger] observed[k] == a * front[k] + (255 - a) * behind[k],
    ensures
        share(along(observed, behind, front), apart(front, behind)) == a,
{
    let whole = apart(front, behind);
    let part = along(observed, behind, front);
    let (d0, d1, d2) = (front[0] - behind[0], front[1] - behind[1], front[2] - behind[2]);
    let (e0, e1, e2) = (observed[0] - behind[0], observed[1] - behind[1], observed[2] - behind[2]);
    assert(255 * observed[0] == a * front[0] + (255 - a) * behind[0]);
    assert(255 * observed[1] == a * front[1] + (255 - a) * behind[1]);
    assert(255 * observed[2] == a * front[2] + (255 - a) * behind[2]);
    assert(255 * e0 == a * d0) by (nonlinear_arith)
        requires
            255 * observed[0] == a * front[0] + (255 - a) * behind[0],
            e0 == observed[0] - behind[0],
            d0 == front[0] - behind[0],
    ;
    assert(255 * e1 == a * d1) by (nonlinear_arith)
        requires
            255 * observed[1] == a * front[1] + (255 - a) * behind[1],
            e1 == observed[1] - behind[1],
            d1 == front[1] - behind[1],
    ;
    assert(255 * e2 == a * d2) by (nonlinear_arith)
        requires
            255 * observed[2] == a * front[2] + (255 - a) * behind[2],
            e2 == observed[2] - behind[2],
            d2 == front[2] - behind[2],
    ;
    assert(255 * (e0 * d0) == a * (d0 * d0)) by (nonlinear_arith)
        requires
            255 * e0 == a * d0,
    ;
    assert(255 * (e1 * d1) == a * (d1 * d1)) by (nonlinear_arith)
        requires
            255 * e1 == a * d1,
    ;
    assert(255 * (e2 * d2) == a * (d2 * d2)) by (nonlinear_arith)
        requires
            255 * e2 == a * d2,
    ;
    assert(255 * part == a * whole) by (nonlinear_arith)
        requires
            part == e0 * d0 + e1 * d1 + e2 * d2,
            whole == d0 * d0 + d1 * d1 + d2 * d2,
            255 * (e0 * d0) == a * (d0 * d0),
            255 * (e1 * d1) == a * (d1 * d1),
            255 * (e2 * d2) == a * (d2 * d2),
    ;
    assert(a == 0 ==> part == 0) by (nonlinear_arith)
        requires
            255 * part == a * whole,
    ;
    assert(a == 255 ==> part == whole) by (nonlinear_arith)
        requires
            255 * part == a * whole,
    ;
    assert(0 < a < 255 ==> 0 < part < whole) by (nonlinear_arith)
        requires
            255 * part == a * whole,
            0 < whole,
    ;
    assert((510 * part + whole) / (2 * whole) == a) by (nonlinear_arith)
        requires
            255 * part == a * whole,
            0 < whole,
    ;
}

/// What lies behind is transparent and the product itself is opaque.
pub proof fn law_pure_colours_are_extremes(front: [u64; 3], behind: [u64; 3])
    requires
        apart(front, behind) > 0,
    ensures
        share(along(behind, behind, front), apart(front, behind)) == 0,
        share(along(front, behind, front), apart(front, behind)) == 255,
{
    let (d0, d1, d2) = (front[0] - behind[0], front[1] - behind[1], front[2] - behind[2]);
    assert(0 * d0 == 0 && 0 * d1 == 0 && 0 * d2 == 0) by (nonlinear_arith);
}

/// A larger part gets no less alpha.
pub proof fn law_alpha_grows_with_the_share(part: int, more: int, whole: int)
    requires
        0 < whole,
        part <= more,
    ensures
        0 <= share(part, whole) <= share(more, whole) <= 255,
{
    if 0 < part && part < whole {
        assert(0 <= (510 * part + whole) / (2 * whole) <= 255) by (nonlinear_arith)
            requires
                0 < part < whole,
        ;
    }
    if 0 < more && more < whole {
        assert(0 <= (510 * more + whole) / (2 * whole) <= 255) by (nonlinear_arith)
            requires
                0 < more < whole,
        ;
    }
    if 0 < part && more < whole {
        assert((510 * part + whole) / (2 * whole) <= (510 * more + whole) / (2 * whole)) by (nonlinear_arith)
            requires
                0 < whole,
                part <= more,
        ;
    }
}

/// Applying a mask as alpha never makes a pixel more opaque, and applying it again
/// changes nothing.
pub proof fn law_alpha_is_only_lowered(p: [u8; 4], a: u8, q: [u8; 4], r: [u8; 4])
    requires
        with_lower_alpha(p, a, q),
        with_lower_alpha(q, a, r),
    ensures
        q[3] <= p[3],
        q[3] <= a,
        r == q,
{
    assert(r =~= q);
}

/// An area of one brightness has no edges.
pub proof fn law_a_flat_image_has_no_edges(image: &RgbaImage, v: int, x: int, y: int)
    requires
        forall|a: int, b: int| image.inside(a, b) ==> #[trigger] lit(image, a, b) == v,
    ensures
        strength(image, x, y) == 0,
        ridge(image, x, y) == 0,
{
    if interior(image, x, y) {
        assert(image.inside(x - 1, y - 1) && image.inside(x, y - 1) && image.inside(x + 1, y - 1));
        assert(image.inside(x - 1, y) && image.inside(x + 1, y));
        assert(image.inside(x - 1, y + 1) && image.inside(x, y + 1) && image.inside(x + 1, y + 1));
        assert(lit(image, x - 1, y - 1) == v && lit(image, x, y - 1) == v && lit(image, x + 1, y - 1) == v);
        assert(lit(image, x - 1, y) == v && lit(image, x + 1, y) == v);
        assert(lit(image, x - 1, y + 1) == v && lit(image, x, y + 1) == v && lit(image, x + 1, y + 1) == v);
        assert(0int * 0int == 0) by (nonlinear_arith);
    }
}

/// Thinning keeps the strength of what it keeps.
pub proof fn law_thinning_keeps_strength(image: &RgbaImage, x: int, y: int)
    ensures
        ridge(image, x, y) == 0 || ridge(image, x, y) == strength(image, x, y),
{
}

} // verus!

//! Laws of edges, told in the channels of pixels.
use vstd::prelude::*;

use crate::cutout::edges::{change_x, change_y, direction_of, lit, ridge, step, strength, Direction};
use crate::raster::RgbaImage;

verus! {

/// By how much `q` is brighter than `p`, in ten-thousandths: green counts most, blue
/// least, and opacity not at all.
pub open spec fn brighter_by(p: [u8; 4], q: [u8; 4]) -> int {
    2126 * (q[0] - p[0]) + 7152 * (q[1] - p[1]) + 722 * (q[2] - p[2])
}

/// Across an upright step from `p` to `q` the edge has four times the step, squared,
/// whatever stands in the column between, so long as it is the same above and below.
pub proof fn law_an_upright_step_has_an_edge(image: &RgbaImage, x: int, y: int, p: [u8; 4], q: [u8; 4])
    requires
        1 <= x < image.w() - 1,
        1 <= y < image.h() - 1,
        forall|v: int| y - 1 <= v <= y + 1 ==> #[trigger] image.px(x - 1, v) == p,
        forall|v: int| y - 1 <= v <= y + 1 ==> #[trigger] image.px(x + 1, v) == q,
        image.px(x, y - 1) == image.px(x, y + 1),
    ensures
        strength(image, x, y) == 16 * (brighter_by(p, q) * brighter_by(p, q)),
{
    let d = brighter_by(p, q);
    assert(image.px(x - 1, y - 1) == p && image.px(x - 1, y) == p && image.px(x - 1, y + 1) == p);
    assert(image.px(x + 1, y - 1) == q && image.px(x + 1, y) == q && image.px(x + 1, y + 1) == q);
    assert(change_x(image, x, y) == 4 * d);
    assert(change_y(image, x, y) == 0);
    assert((4 * d) * (4 * d) == 16 * (d * d)) by (nonlinear_arith);
}

/// So has a level step.
pub proof fn law_a_level_step_has_an_edge(image: &RgbaImage, x: int, y: int, p: [u8; 4], q: [u8; 4])
    requires
        1 <= x < image.w() - 1,
        1 <= y < image.h() - 1,
        forall|u: int| x - 1 <= u <= x + 1 ==> #[trigger] image.px(u, y - 1) == p,
        forall|u: int| x - 1 <= u <= x + 1 ==> #[trigger] image.px(u, y + 1) == q,
        image.px(x - 1, y) == image.px(x + 1, y),
    ensures
        strength(image, x, y) == 16 * (brighter_by(p, q) * brighter_by(p, q)),
{
    let d = brighter_by(p, q);
    assert(image.px(x - 1, y - 1) == p && image.px(x, y - 1) == p && image.px(x + 1, y - 1) == p);
    assert(image.px(x - 1, y + 1) == q && image.px(x, y + 1) == q && image.px(x + 1, y + 1) == q);
    assert(change_y(image, x, y) == 4 * d);
    assert(change_x(image, x, y) == 0);
    assert((4 * d) * (4 * d) == 16 * (d * d)) by (nonlinear_arith);
}

/// One pixel that differs from all around it is felt by its neighbours: beside it
/// with twice the step, at its corners with the step both ways. It does not feel
/// itself.
pub proof fn law_a_lone_pixel_is_felt_around_it(
    image: &RgbaImage,
    x: int,
    y: int,
    dx: int,
    dy: int,
    p: [u8; 4],
    q: [u8; 4],
)
    requires
        1 <= x < image.w() - 1,
        1 <= y < image.h() - 1,
        -1 <= dx <= 1,
        -1 <= dy <= 1,
        image.px(x + dx, y + dy) == q,
        forall|u: int, v: int|
            x - 1 <= u <= x + 1 && y - 1 <= v <= y + 1 && (u != x + dx || v != y + dy) ==> #[trigger] image.px(u, v)
                == p,
    ensures
        dx == 0 && dy == 0 ==> strength(image, x, y) == 0,
        (dx == 0) != (dy == 0) ==> strength(image, x, y) == 4 * (brighter_by(p, q) * brighter_by(p, q)),
        dx != 0 && dy != 0 ==> strength(image, x, y) == 2 * (brighter_by(p, q) * brighter_by(p, q)),
{
    let d = brighter_by(p, q);
    assert forall|u: int, v: int| x - 1 <= u <= x + 1 && y - 1 <= v <= y + 1 implies #[trigger] lit(image, u, v) == lit(
        image,
        x + dx,
        y + dy,
    ) - if u == x + dx && v == y + dy {
        0
    } else {
        d
    } by {
        if u != x + dx || v != y + dy {
            assert(image.px(u, v) == p);
        }
    }
    let (a, b) = (change_x(image, x, y), change_y(image, x, y));
    if dx == 0 && dy == 0 {
        assert(a == 0 && b == 0);
    } else if dy == 0 {
        assert(b == 0 && (a == 2 * d || a == -2 * d));
        assert(a * a == 4 * (d * d)) by (nonlinear_arith)
            requires
                a == 2 * d || a == -2 * d,
        ;
    } else if dx == 0 {
        assert(a == 0 && (b == 2 * d || b == -2 * d));
        assert(b * b == 4 * (d * d)) by (nonlinear_arith)
            requires
                b == 2 * d || b == -2 * d,
        ;
    } else {
        assert((a == d || a == -d) && (b == d || b == -d));
        assert(a * a == d * d && b * b == d * d) by (nonlinear_arith)
            requires
                a == d || a == -d,
                b == d || b == -d,
        ;
    }
}

/// An image turned over, left for right, top for bottom, or along its diagonal, has
/// its edges turned over with it.
pub proof fn law_edges_turn_with_the_image(
    image: &RgbaImage,
    flipped: &RgbaImage,
    upset: &RgbaImage,
    turned: &RgbaImage,
    x: int,
    y: int,
)
    requires
        flipped.w() == image.w(),
        flipped.h() == image.h(),
        upset.w() == image.w(),
        upset.h() == image.h(),
        turned.w() == image.h(),
        turned.h() == image.w(),
        forall|u: int, v: int|
            0 <= u < image.w() && 0 <= v < image.h() ==> #[trigger] image.px(u, v) == flipped.px(image.w() - 1 - u, v),
        forall|u: int, v: int|
            0 <= u < image.w() && 0 <= v < image.h() ==> #[trigger] image.px(u, v) == upset.px(u, image.h() - 1 - v),
        forall|u: int, v: int|
            0 <= u < image.w() && 0 <= v < image.h() ==> #[trigger] image.px(u, v) == turned.px(v, u),
        0 <= x < image.w(),
        0 <= y < image.h(),
    ensures
        strength(flipped, image.w() - 1 - x, y) == strength(image, x, y),
        strength(upset, x, image.h() - 1 - y) == strength(image, x, y),
        strength(turned, y, x) == strength(image, x, y),
{
    if 1 <= x < image.w() - 1 && 1 <= y < image.h() - 1 {
        let (w, h) = (image.w() as int, image.h() as int);
        assert forall|u: int, v: int| x - 1 <= u <= x + 1 && y - 1 <= v <= y + 1 implies lit(flipped, w - 1 - u, v)
            == #[trigger] lit(image, u, v) && lit(upset, u, h - 1 - v) == lit(image, u, v) && lit(turned, v, u) == lit(
            image,
            u,
            v,
        ) by {
            assert(image.px(u, v) == flipped.px(w - 1 - u, v));
        }
        let (a, b) = (change_x(image, x, y), change_y(image, x, y));
        assert(lit(image, x - 1, y - 1) == lit(turned, y - 1, x - 1));
        assert(lit(image, x, y - 1) == lit(turned, y - 1, x));
        assert(lit(image, x + 1, y - 1) == lit(turned, y - 1, x + 1));
        assert(lit(image, x - 1, y) == lit(turned, y, x - 1));
        assert(lit(image, x + 1, y) == lit(turned, y, x + 1));
        assert(lit(image, x - 1, y + 1) == lit(turned, y + 1, x - 1));
        assert(lit(image, x, y + 1) == lit(turned, y + 1, x));
        assert(lit(image, x + 1, y + 1) == lit(turned, y + 1, x + 1));
        assert(change_x(flipped, w - 1 - x, y) == -a && change_y(flipped, w - 1 - x, y) == b);
        assert(change_x(upset, x, h - 1 - y) == a && change_y(upset, x, h - 1 - y) == -b);
        assert(change_x(turned, y, x) == b && change_y(turned, y, x) == a);
        assert((-a) * (-a) == a * a && (-b) * (-b) == b * b) by (nonlinear_arith);
    }
}

/// Along the frame of the image there are no edges.
pub proof fn law_the_frame_has_no_edge(image: &RgbaImage, x: int, y: int)
    requires
        x <= 0 || y <= 0 || x >= image.w() - 1 || y >= image.h() - 1,
    ensures
        strength(image, x, y) == 0,
        ridge(image, x, y) == 0,
{
}

/// An upright step between two halves of an image leaves one line of edge, on its
/// far side, as strong as the step.
pub proof fn law_a_step_leaves_one_line(image: &RgbaImage, k: int, p: [u8; 4], q: [u8; 4], y: int)
    requires
        1 <= k,
        k + 2 < image.w(),
        1 <= y < image.h() - 1,
        brighter_by(p, q) != 0,
        forall|u: int, v: int|
            0 <= u < image.w() && 0 <= v < image.h() ==> #[trigger] image.px(u, v) == if u <= k {
                p
            } else {
                q
            },
    ensures
        forall|x: int|
            1 <= x < image.w() - 1 ==> #[trigger] ridge(image, x, y) == if x == k + 1 {
                16 * (brighter_by(p, q) * brighter_by(p, q))
            } else {
                0
            },
{
    let d = brighter_by(p, q);
    assert(d * d > 0) by (nonlinear_arith)
        requires
            d != 0,
    ;
    assert forall|x: int| 0 <= x < image.w() implies #[trigger] strength(image, x, y) == if (x == k || x == k + 1) {
        16 * (d * d)
    } else {
        0
    } by {
        if 1 <= x < image.w() - 1 {
            lemma_columns(image, k, p, q, x, y);
        }
    }
    assert forall|x: int| 1 <= x < image.w() - 1 implies #[trigger] ridge(image, x, y) == if x == k + 1 {
        16 * (d * d)
    } else {
        0
    } by {
        lemma_columns(image, k, p, q, x, y);
        assert(strength(image, x, y) == if (x == k || x == k + 1) {
            16 * (d * d)
        } else {
            0
        });
        assert(strength(image, x - 1, y) == if (x - 1 == k || x - 1 == k + 1) {
            16 * (d * d)
        } else {
            0
        });
        assert(strength(image, x + 1, y) == if (x + 1 == k || x + 1 == k + 1) {
            16 * (d * d)
        } else {
            0
        });
        assert(direction_of(change_x(image, x, y), change_y(image, x, y)) == Direction::Across);
    }
}

proof fn lemma_columns(image: &RgbaImage, k: int, p: [u8; 4], q: [u8; 4], x: int, y: int)
    requires
        1 <= x < image.w() - 1,
        1 <= y < image.h() - 1,
        forall|u: int, v: int|
            0 <= u < image.w() && 0 <= v < image.h() ==> #[trigger] image.px(u, v) == if u <= k {
                p
            } else {
                q
            },
    ensures
        change_y(image, x, y) == 0,
        change_x(image, x, y) == if (x == k || x == k + 1) {
            4 * brighter_by(p, q)
        } else {
            0
        },
        strength(image, x, y) == if (x == k || x == k + 1) {
            16 * (brighter_by(p, q) * brighter_by(p, q))
        } else {
            0
        },
{
    let d = brighter_by(p, q);
    assert forall|u: int, v: int| x - 1 <= u <= x + 1 && y - 1 <= v <= y + 1 implies #[trigger] lit(image, u, v) == lit(
        image,
        0,
        0,
    ) + if u <= k {
        if 0 <= k {
            0
        } else {
            -d
        }
    } else {
        if 0 <= k {
            d
        } else {
            0
        }
    } by {
        assert(image.px(0, 0) == if 0 <= k {
            p
        } else {
            q
        });
        assert(image.px(u, v) == if u <= k {
            p
        } else {
            q
        });
    }
    let (a, b) = (change_x(image, x, y), change_y(image, x, y));
    assert(b == 0);
    assert(a * a == 16 * (d * d) || a * a == 0) by (nonlinear_arith)
        requires
            a == 4 * d || a == 0,
    ;
    assert(a == 4 * d ==> a * a == 16 * (d * d)) by (nonlinear_arith);
    assert(a == 0 ==> a * a == 0) by (nonlinear_arith);
    assert(b * b == 0) by (nonlinear_arith)
        requires
            b == 0,
    ;
}

/// A number without its sign.
pub open spec fn size_of(v: int) -> int {
    if v < 0 {
        -v
    } else {
        v
    }
}

/// A pixel on a ridge is as strong as the image is there, and the image is no
/// stronger on the two opposite sides of it: across, if the change is within 22.5
/// degrees of running across, above and below, if it is within as much of running
/// down, and at the corners that it runs between otherwise.
#[verifier::rlimit(40)]
pub proof fn law_a_ridge_is_highest_along_its_change(image: &RgbaImage, x: int, y: int, a: int, b: int)
    requires
        1 <= x < image.w() - 1,
        1 <= y < image.h() - 1,
        a == brighter_by(image.px(x - 1, y - 1), image.px(x + 1, y - 1)) + 2 * brighter_by(
            image.px(x - 1, y),
            image.px(x + 1, y),
        ) + brighter_by(image.px(x - 1, y + 1), image.px(x + 1, y + 1)),
        b == brighter_by(image.px(x - 1, y - 1), image.px(x - 1, y + 1)) + 2 * brighter_by(
            image.px(x, y - 1),
            image.px(x, y + 1),
        ) + brighter_by(image.px(x + 1, y - 1), image.px(x + 1, y + 1)),
        ridge(image, x, y) != 0,
    ensures
        ridge(image, x, y) == strength(image, x, y),
        100_000_000 * size_of(b) <= 41_421_356 * size_of(a) ==> strength(image, x - 1, y) <= strength(image, x, y)
            && strength(image, x + 1, y) < strength(image, x, y),
        100_000_000 * size_of(b) > 41_421_356 * size_of(a) && 10_000_000 * size_of(b) >= 24_142_136 * size_of(a)
            ==> strength(image, x, y - 1) <= strength(image, x, y) && strength(image, x, y + 1) < strength(image, x, y),
        100_000_000 * size_of(b) > 41_421_356 * size_of(a) && 10_000_000 * size_of(b) < 24_142_136 * size_of(a) && (a > 0)
            == (b > 0) ==> strength(image, x - 1, y - 1) <= strength(image, x, y) && strength(image, x + 1, y + 1)
            < strength(image, x, y),
        100_000_000 * size_of(b) > 41_421_356 * size_of(a) && 10_000_000 * size_of(b) < 24_142_136 * size_of(a) && (a > 0)
            != (b > 0) ==> strength(image, x + 1, y - 1) <= strength(image, x, y) && strength(image, x - 1, y + 1)
            < strength(image, x, y),
{
    assert(a == change_x(image, x, y) && b == change_y(image, x, y));
    if a == 0 && b == 0 {
        assert(a * a + b * b == 0) by (nonlinear_arith)
            requires
                a == 0,
                b == 0,
        ;
    }
}

/// What is stronger than all its eight neighbours is kept.
pub proof fn law_a_peak_is_kept(image: &RgbaImage, x: int, y: int)
    requires
        forall|u: int, v: int|
            x - 1 <= u <= x + 1 && y - 1 <= v <= y + 1 && (u != x || v != y) ==> #[trigger] strength(image, u, v)
                < strength(image, x, y),
        1 <= x < image.w() - 1,
        1 <= y < image.h() - 1,
    ensures
        ridge(image, x, y) == strength(image, x, y),
{
    let (dx, dy) = step(direction_of(change_x(image, x, y), change_y(image, x, y)));
    assert(strength(image, x - dx, y - dy) < strength(image, x, y));
    assert(strength(image, x + dx, y + dy) < strength(image, x, y));
    let (a, b) = (change_x(image, x, y), change_y(image, x, y));
    assert(a * a + b * b >= 0) by (nonlinear_arith);
    let (c, d) = (change_x(image, x - dx, y - dy), change_y(image, x - dx, y - dy));
    assert(c * c + d * d >= 0) by (nonlinear_arith);
}

} // verus!

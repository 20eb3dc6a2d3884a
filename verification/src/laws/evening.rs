//! Laws of evening out alpha by the colours of the image.
use vstd::prelude::*;

use crate::cutout::diagnostics::over;
use crate::cutout::evening::{rounded, slice, Guide};
use crate::cutout::matte::{high, wide};
use crate::cutout::slopes::{
    is_cofactors, is_line_by, is_table, offset_of, pair, quotient, restraint, scatter, slope_of, toward, Table,
};
use crate::geometry::Rect;
use crate::sums::{row_sum, span_sum};

verus! {

/// Scatter does not depend on where a quantity starts from, nor on which of the two
/// comes first: more of one everywhere changes nothing.
pub proof fn law_scatter_ignores_where_it_starts(n: int, both: int, one: int, other: int, more: int)
    requires
        0 < n,
    ensures
        scatter(n, both + more * one, one, other + more * n) == scatter(n, both, one, other),
        scatter(n, both, one, other) == scatter(n, both, other, one),
{
    assert(n * (both + more * one) - one * (other + more * n) == n * both - one * other) by (nonlinear_arith);
    assert(one * other == other * one) by (nonlinear_arith);
}

/// Over `n` pixels the scatter is the mean of the products less the product of the
/// means, in 1024ths, rounded toward nothing.
pub proof fn law_scatter_is_a_covariance(n: int, both: int, one: int, other: int)
    requires
        0 < n,
    ensures
        ({
            let s = scatter(n, both, one, other);
            let exact = 1024 * (n * both - one * other);
            &&& exact >= 0 ==> s * (n * n) <= exact < (s + 1) * (n * n)
            &&& exact <= 0 ==> (s - 1) * (n * n) < exact <= s * (n * n)
        }),
{
    let m = n * n;
    assert(0 < m) by (nonlinear_arith)
        requires
            m == n * n,
            0 < n,
    ;
    let e = (n * both - one * other) * 1024;
    lemma_quotient(e, m);
}

proof fn lemma_quotient(a: int, b: int)
    requires
        0 < b,
    ensures
        a >= 0 ==> quotient(a, b) * b <= a < (quotient(a, b) + 1) * b,
        a <= 0 ==> (quotient(a, b) - 1) * b < a <= quotient(a, b) * b,
        a == 0 ==> quotient(a, b) == 0,
{
    let c = if a >= 0 {
        a
    } else {
        -a
    };
    let q = c / b;
    assert(q * b <= c < (q + 1) * b && 0 <= q) by (nonlinear_arith)
        requires
            q == c / b,
            0 <= c,
            0 < b,
    ;
    assert((-q) * b == -(q * b) && (-q - 1) * b == -((q + 1) * b)) by (nonlinear_arith);
    if a == 0 {
        assert(q == 0) by (nonlinear_arith)
            requires
                q * b <= 0,
                0 <= q,
                0 < b,
        ;
        assert((q - 1) * b < 0) by (nonlinear_arith)
            requires
                q == 0,
                0 < b,
        ;
    }
}

/// The sums are what their places say: the products of two channels, and those of each
/// channel and alpha.
pub proof fn law_sums_are_of_products(g: &Guide<'_>, i: int, j: int, x: int, y: int)
    requires
        0 <= i <= j < 3,
    ensures
        g.moments()(i, x, y) == g.linear@[g.image.px(x, y)[i] as int],
        g.moments()(3, x, y) == g.alpha.px(x, y),
        g.moments()(pair(i, j), x, y) == g.linear@[g.image.px(x, y)[i] as int] * g.linear@[g.image.px(x, y)[j] as int],
        g.moments()(10 + j, x, y) == g.linear@[g.image.px(x, y)[j] as int] * g.alpha.px(x, y),
{
}

/// The slopes solve what they are to solve: put back into the scatter of the channels,
/// the rows of the cofactors give the scatter with alpha, times the determinant.
pub proof fn law_slopes_solve_the_scatter(m: Table, c: Table, v: (int, int, int), det: int)
    requires
        is_cofactors(m, c),
        det == m.m00 * c.m00 + m.m01 * c.m01 + m.m02 * c.m02,
    ensures
        ({
            let p = c.m00 * v.0 + c.m01 * v.1 + c.m02 * v.2;
            let q = c.m01 * v.0 + c.m11 * v.1 + c.m12 * v.2;
            let r = c.m02 * v.0 + c.m12 * v.1 + c.m22 * v.2;
            &&& m.m00 * p + m.m01 * q + m.m02 * r == det * v.0
            &&& m.m01 * p + m.m11 * q + m.m12 * r == det * v.1
            &&& m.m02 * p + m.m12 * q + m.m22 * r == det * v.2
        }),
{
    let (a, b, d, e, f, h) = (m.m00 as int, m.m01 as int, m.m02 as int, m.m11 as int, m.m12 as int, m.m22 as int);
    let (ca, cb, cd, ce, cf, ch) = (
        c.m00 as int,
        c.m01 as int,
        c.m02 as int,
        c.m11 as int,
        c.m12 as int,
        c.m22 as int,
    );
    lemma_inverse(a, b, d, e, f, h);
    assert(ca == e * h - f * f && cb == d * f - b * h && cd == b * f - d * e);
    assert(ce == a * h - d * d && cf == b * d - a * f && ch == a * e - b * b);
    assert(a * cb + b * ce + d * cf == 0);
    assert(a * cd + b * cf + d * ch == 0);
    assert(b * ca + e * cb + f * cd == 0);
    assert(b * cb + e * ce + f * cf == det);
    assert(b * cd + e * cf + f * ch == 0);
    assert(d * ca + f * cb + h * cd == 0);
    assert(d * cb + f * ce + h * cf == 0);
    assert(d * cd + f * cf + h * ch == det);
    let (x, y, z) = v;
    lemma_row(a, b, d, ca, cb, cd, cb, ce, cf, cd, cf, ch, x, y, z);
    lemma_row(b, e, f, ca, cb, cd, cb, ce, cf, cd, cf, ch, x, y, z);
    lemma_row(d, f, h, ca, cb, cd, cb, ce, cf, cd, cf, ch, x, y, z);
    assert(det * x + 0 * y + 0 * z == det * x);
}

proof fn lemma_row(
    a: int,
    b: int,
    c: int,
    p0: int,
    p1: int,
    p2: int,
    q0: int,
    q1: int,
    q2: int,
    r0: int,
    r1: int,
    r2: int,
    x: int,
    y: int,
    z: int,
)
    ensures
        a * (p0 * x + p1 * y + p2 * z) + b * (q0 * x + q1 * y + q2 * z) + c * (r0 * x + r1 * y + r2 * z) == (a * p0 + b
            * q0 + c * r0) * x + (a * p1 + b * q1 + c * r1) * y + (a * p2 + b * q2 + c * r2) * z,
{
    lemma_into_three(a, p0, p1, p2, x, y, z);
    lemma_into_three(b, q0, q1, q2, x, y, z);
    lemma_into_three(c, r0, r1, r2, x, y, z);
    let (i, j, k) = (a * p0, b * q0, c * r0);
    assert((i + j + k) * x == i * x + j * x + k * x) by (nonlinear_arith);
    let (l, m, n) = (a * p1, b * q1, c * r1);
    assert((l + m + n) * y == l * y + m * y + n * y) by (nonlinear_arith);
    let (s, t, u) = (a * p2, b * q2, c * r2);
    assert((s + t + u) * z == s * z + t * z + u * z) by (nonlinear_arith);
}

proof fn lemma_into_three(a: int, p: int, q: int, r: int, x: int, y: int, z: int)
    ensures
        a * (p * x + q * y + r * z) == (a * p) * x + (a * q) * y + (a * r) * z,
{
    let (u, v, w) = (p * x, q * y, r * z);
    assert(a * (u + v + w) == a * u + a * v + a * w) by (nonlinear_arith);
    assert(a * (p * x) == (a * p) * x) by (nonlinear_arith);
    assert(a * (q * y) == (a * q) * y) by (nonlinear_arith);
    assert(a * (r * z) == (a * r) * z) by (nonlinear_arith);
}

/// A product with a difference of products.
proof fn lemma_spread_out(a: int, p: int, q: int, r: int, s: int)
    ensures
        a * (p * q - r * s) == (a * p) * q - (a * r) * s,
{
    let (u, v) = (p * q, r * s);
    assert(a * (u - v) == a * u - a * v) by (nonlinear_arith);
    assert(a * (p * q) == (a * p) * q) by (nonlinear_arith);
    assert(a * (r * s) == (a * r) * s) by (nonlinear_arith);
}

/// A product in another order.
proof fn lemma_turned(a: int, p: int, q: int)
    ensures
        (a * p) * q == (p * a) * q,
        (a * p) * q == (a * q) * p,
        (a * p) * q == (q * p) * a,
        (a * p) * q == (p * q) * a,
        (a * p) * q == (q * a) * p,
{
    assert(a * p == p * a && a * q == q * a && p * q == q * p) by (nonlinear_arith);
    assert((a * p) * q == (a * q) * p) by (nonlinear_arith);
    assert((a * p) * q == (p * q) * a) by (nonlinear_arith);
}

/// A symmetric table of three and its cofactors.
proof fn lemma_inverse(a: int, b: int, d: int, e: int, f: int, h: int)
    ensures
        ({
            let (ca, cb, cd) = (e * h - f * f, d * f - b * h, b * f - d * e);
            let (ce, cf, ch) = (a * h - d * d, b * d - a * f, a * e - b * b);
            let det = a * ca + b * cb + d * cd;
            &&& a * cb + b * ce + d * cf == 0
            &&& a * cd + b * cf + d * ch == 0
            &&& b * ca + e * cb + f * cd == 0
            &&& b * cb + e * ce + f * cf == det
            &&& b * cd + e * cf + f * ch == 0
            &&& d * ca + f * cb + h * cd == 0
            &&& d * cb + f * ce + h * cf == 0
            &&& d * cd + f * cf + h * ch == det
        }),
{
    assert(a * (d * f - b * h) + b * (a * h - d * d) + d * (b * d - a * f) == 0) by (nonlinear_arith);
    assert(a * (b * f - d * e) + b * (b * d - a * f) + d * (a * e - b * b) == 0) by (nonlinear_arith);
    assert(b * (e * h - f * f) + e * (d * f - b * h) + f * (b * f - d * e) == 0) by (nonlinear_arith);
    lemma_spread_out(a, e, h, f, f);
    lemma_spread_out(b, d, f, b, h);
    lemma_spread_out(d, b, f, d, e);
    lemma_spread_out(e, a, h, d, d);
    lemma_spread_out(f, b, d, a, f);
    lemma_spread_out(f, b, d, a, f);
    lemma_spread_out(h, a, e, b, b);
    lemma_turned(a, e, h);
    lemma_turned(e, a, h);
    lemma_turned(a, f, f);
    lemma_turned(f, a, f);
    lemma_turned(b, d, f);
    lemma_turned(f, b, d);
    lemma_turned(d, b, f);
    lemma_turned(b, b, h);
    lemma_turned(h, b, b);
    lemma_turned(d, d, e);
    lemma_turned(e, d, d);
    lemma_turned(h, a, e);
    assert(b * (b * f - d * e) + e * (b * d - a * f) + f * (a * e - b * b) == 0) by (nonlinear_arith);
    assert(d * (e * h - f * f) + f * (d * f - b * h) + h * (b * f - d * e) == 0) by (nonlinear_arith);
    assert(d * (d * f - b * h) + f * (a * h - d * d) + h * (b * d - a * f) == 0) by (nonlinear_arith);
}

/// A background of one colour holds the slopes back by the floor and no more; nothing
/// holds them back by less.
pub proof fn law_an_even_background_holds_back_least(t: Seq<int>, r: int, g: int, b: int)
    requires
        t.len() == 5,
        0 <= t[4],
    ensures
        restraint(t) >= 61_839_980,
        t[4] == 0 ==> restraint(t) == 61_839_980,
        t[0] == t[4] * r && t[1] == t[4] * g && t[2] == t[4] * b && t[3] == t[4] * (r * r + g * g + b * b) ==> restraint(
            t,
        ) == 61_839_980,
{
    let c = t[4];
    if t[0] == c * r && t[1] == c * g && t[2] == c * b && t[3] == c * (r * r + g * g + b * b) {
        assert(c * (c * (r * r + g * g + b * b)) == (c * r) * (c * r) + (c * g) * (c * g) + (c * b) * (c * b))
            by (nonlinear_arith);
    }
}

proof fn lemma_span_scaled(f: spec_fn(int) -> int, g: spec_fn(int) -> int, c: int, a: int, b: int)
    requires
        forall|k: int| a <= k < b ==> #[trigger] f(k) == c * g(k),
    ensures
        span_sum(f, a, b) == c * span_sum(g, a, b),
    decreases b - a,
{
    if a < b {
        lemma_span_scaled(f, g, c, a, b - 1);
        let (s, t) = (span_sum(g, a, b - 1), g(b - 1));
        assert(f(b - 1) == c * g(b - 1));
        assert(c * (s + t) == c * s + c * t) by (nonlinear_arith);
    } else {
        assert(c * 0 == 0) by (nonlinear_arith);
    }
}

proof fn lemma_over_scaled(f: spec_fn(int, int) -> int, g: spec_fn(int, int) -> int, c: int, r: Rect)
    requires
        forall|x: int, y: int| r.0 <= x <= r.2 && r.1 <= y <= r.3 ==> #[trigger] f(x, y) == c * g(x, y),
    ensures
        over(f, r) == c * over(g, r),
{
    let (a, b) = (|y: int| row_sum(f, r.0 as int, r.2 + 1, y), |y: int| row_sum(g, r.0 as int, r.2 + 1, y));
    assert forall|y: int| r.1 <= y < r.3 + 1 implies #[trigger] a(y) == c * b(y) by {
        let (p, q) = (|x: int| f(x, y), |x: int| g(x, y));
        assert forall|x: int| r.0 <= x < r.2 + 1 implies #[trigger] p(x) == c * q(x) by {
            assert(f(x, y) == c * g(x, y));
        }
        lemma_span_scaled(p, q, c, r.0 as int, r.2 + 1);
    }
    lemma_span_scaled(a, b, c, r.1 as int, r.3 + 1);
}

proof fn lemma_span_ones(f: spec_fn(int) -> int, c: int, a: int, b: int)
    requires
        a <= b,
        forall|k: int| a <= k < b ==> #[trigger] f(k) == c,
    ensures
        span_sum(f, a, b) == c * (b - a),
    decreases b - a,
{
    if a < b {
        lemma_span_ones(f, c, a, b - 1);
        assert(f(b - 1) == c);
        assert(c * (b - a) == c * (b - 1 - a) + c) by (nonlinear_arith);
    } else {
        assert(c * (b - a) == 0) by (nonlinear_arith)
            requires
                a == b,
        ;
    }
}

proof fn lemma_over_constant(f: spec_fn(int, int) -> int, c: int, r: Rect)
    requires
        r.0 <= r.2,
        r.1 <= r.3,
        forall|x: int, y: int| r.0 <= x <= r.2 && r.1 <= y <= r.3 ==> #[trigger] f(x, y) == c,
    ensures
        over(f, r) == c * (wide(r) * high(r)),
{
    let a = |y: int| row_sum(f, r.0 as int, r.2 + 1, y);
    assert forall|y: int| r.1 <= y < r.3 + 1 implies #[trigger] a(y) == c * wide(r) by {
        let p = |x: int| f(x, y);
        assert forall|x: int| r.0 <= x < r.2 + 1 implies #[trigger] p(x) == c by {
            assert(f(x, y) == c);
        }
        lemma_span_ones(p, c, r.0 as int, r.2 + 1);
    }
    lemma_span_ones(a, c * wide(r), r.1 as int, r.3 + 1);
    assert((c * wide(r)) * high(r) == c * (wide(r) * high(r))) by (nonlinear_arith);
}

/// Where alpha is the same all over a window, its line is level at that alpha,
/// whatever the colours are.
pub proof fn law_a_level_window_has_a_level_line(g: &Guide<'_>, x: int, y: int, r: [i64; 4], value: int)
    requires
        g.wf(),
        0 <= x < g.w(),
        0 <= y < g.h(),
        g.has_line(x, y, r),
        0 <= value <= 255,
        forall|u: int, v: int|
            g.window(x, y).0 <= u <= g.window(x, y).2 && g.window(x, y).1 <= v <= g.window(x, y).3 ==> #[trigger] g.share(
                u,
                v,
            ) == value,
    ensures
        r[0] == 0 && r[1] == 0 && r[2] == 0,
        r[3] == value * 67_108_864,
{
    let area = g.window(x, y);
    let n = g.count(x, y);
    let s = g.sums(g.moments(), 13, x, y);
    let t = g.sums(g.shades(), 5, x, y);
    assert(n > 0) by (nonlinear_arith)
        requires
            n == wide(area) * high(area),
            wide(area) > 0,
            high(area) > 0,
    ;
    assert(s[3] == value * n) by {
        let f = slice(g.moments(), 3);
        assert forall|u: int, v: int| area.0 <= u <= area.2 && area.1 <= v <= area.3 implies #[trigger] f(u, v) == value by {
            assert(g.share(u, v) == value);
        }
        lemma_over_constant(f, value, area);
    }
    assert forall|k: int| 0 <= k < 3 implies #[trigger] toward(s, n, k) == 0 by {
        let (f, e) = (slice(g.moments(), 10 + k), slice(g.moments(), k));
        assert forall|u: int, v: int| area.0 <= u <= area.2 && area.1 <= v <= area.3 implies #[trigger] f(u, v) == value
            * e(u, v) by {
            assert(g.share(u, v) == value);
            let l = g.light(k, u, v);
            assert(l * value == value * l) by (nonlinear_arith);
        }
        lemma_over_scaled(f, e, value, area);
        let one = s[k];
        assert(s[10 + k] == value * one);
        assert(n * (value * one) - one * (value * n) == 0) by (nonlinear_arith);
        assert(0 < n * n) by (nonlinear_arith)
            requires
                0 < n,
        ;
        lemma_quotient(0, n * n);
    }
    let (m, c) = choose|m: Table, c: Table| #[trigger] is_line_by(s, t, n, m, c, r);
    let det = m.m00 * c.m00 + m.m01 * c.m01 + m.m02 * c.m02;
    assert(toward(s, n, 0) == 0 && toward(s, n, 1) == 0 && toward(s, n, 2) == 0);
    lemma_no_slope((c.m00 as int, c.m01 as int, c.m02 as int), det);
    lemma_no_slope((c.m01 as int, c.m11 as int, c.m12 as int), det);
    lemma_no_slope((c.m02 as int, c.m12 as int, c.m22 as int), det);
    let q = s[3] * 67_108_864;
    assert(q == (value * 67_108_864) * n) by (nonlinear_arith)
        requires
            q == s[3] * 67_108_864,
            s[3] == value * n,
    ;
    let level = value * 67_108_864;
    assert((level * n) / n == level) by (nonlinear_arith)
        requires
            0 < n,
    ;
    assert(0 <= level * n) by (nonlinear_arith)
        requires
            0 <= level,
            0 < n,
    ;
    assert(0 * s[0] + 0 * s[1] + 0 * s[2] == 0);
    assert(offset_of(s, n, (0, 0, 0)) == level);
}

proof fn lemma_no_slope(row: (int, int, int), det: int)
    ensures
        slope_of(row, (0, 0, 0), det) == 0,
{
    assert(row.0 * 0 + row.1 * 0 + row.2 * 0 == 0);
    if det >= 67_108_864 {
        let d = det / 67_108_864;
        assert(d >= 1);
        lemma_quotient(0, d);
    }
}

/// Evening leaves alpha as it is where it is the same all around: in every window that
/// holds the pixel.
pub proof fn law_evening_leaves_level_alpha(g: &Guide<'_>, x: int, y: int, value: int)
    requires
        g.wf(),
        0 <= x < g.w(),
        0 <= y < g.h(),
        0 <= value <= 255,
        forall|u: int, v: int|
            g.window(x, y).0 <= u <= g.window(x, y).2 && g.window(x, y).1 <= v <= g.window(x, y).3
                ==> #[trigger] g.has_line(u, v, g.line(u, v)),
        forall|u: int, v: int|
            0 <= u < g.w() && 0 <= v < g.h() && -2 * g.radius <= u - x <= 2 * g.radius && -2 * g.radius <= v - y <= 2
                * g.radius ==> #[trigger] g.share(u, v) == value,
    ensures
        g.evened(x, y) == value,
{
    let area = g.window(x, y);
    let n = g.count(x, y);
    let level = value * 67_108_864;
    assert forall|u: int, v: int| area.0 <= u <= area.2 && area.1 <= v <= area.3 implies #[trigger] g.line(u, v)[0] == 0
        && g.line(u, v)[1] == 0 && g.line(u, v)[2] == 0 && g.line(u, v)[3] == level by {
        assert(g.has_line(u, v, g.line(u, v)));
        assert forall|a: int, b: int|
            g.window(u, v).0 <= a <= g.window(u, v).2 && g.window(u, v).1 <= b <= g.window(u, v).3 implies #[trigger] g.share(
            a,
            b,
        ) == value by {}
        law_a_level_window_has_a_level_line(g, u, v, g.line(u, v), value);
    }
    let (f0, f1, f2, f3) = (slice(g.lines(), 0), slice(g.lines(), 1), slice(g.lines(), 2), slice(g.lines(), 3));
    assert forall|u: int, v: int| area.0 <= u <= area.2 && area.1 <= v <= area.3 implies #[trigger] f0(u, v) == 0 by {
        assert(g.line(u, v)[0] == 0);
    }
    assert forall|u: int, v: int| area.0 <= u <= area.2 && area.1 <= v <= area.3 implies #[trigger] f1(u, v) == 0 by {
        assert(g.line(u, v)[0] == 0);
    }
    assert forall|u: int, v: int| area.0 <= u <= area.2 && area.1 <= v <= area.3 implies #[trigger] f2(u, v) == 0 by {
        assert(g.line(u, v)[0] == 0);
    }
    assert forall|u: int, v: int| area.0 <= u <= area.2 && area.1 <= v <= area.3 implies #[trigger] f3(u, v) == level by {
        assert(g.line(u, v)[0] == 0);
    }
    lemma_over_constant(f0, 0, area);
    lemma_over_constant(f1, 0, area);
    lemma_over_constant(f2, 0, area);
    lemma_over_constant(f3, level, area);
    assert(n > 0) by (nonlinear_arith)
        requires
            n == wide(area) * high(area),
            wide(area) > 0,
            high(area) > 0,
    ;
    assert(0 * n == 0);
    assert(g.said(x, y) == level * n);
    let d = n * 67_108_864;
    assert(level * n == value * d && d > 0) by (nonlinear_arith)
        requires
            level == value * 67_108_864,
            d == n * 67_108_864,
            n > 0,
    ;
    assert(rounded(value * d, d) == value) by {
        assert((2 * (value * d) + d) / (2 * d) == value) by (nonlinear_arith)
            requires
                d > 0,
                0 <= value,
        ;
        assert(value * d > 0 <==> value > 0) by (nonlinear_arith)
            requires
                d > 0,
                0 <= value,
        ;
    }
}

/// A pixel belongs to the window around another if it lies on the image, no farther
/// than the radius, sideways, up and down.
pub proof fn law_a_window_is_a_square(g: &Guide<'_>, x: int, y: int, u: int, v: int)
    requires
        g.wf(),
        0 <= x < g.w(),
        0 <= y < g.h(),
    ensures
        ({
            let r = g.window(x, y);
            r.0 <= u <= r.2 && r.1 <= v <= r.3 <==> 0 <= u < g.w() && 0 <= v < g.h() && -g.radius <= u - x <= g.radius
                && -g.radius <= v - y <= g.radius
        }),
{
}

/// The line of a window runs through its means: at the mean colour it has the mean of
/// alpha, to within what rounding loses, unless the offset is held back.
pub proof fn law_a_line_runs_through_the_means(s: Seq<int>, n: int, a: (int, int, int))
    requires
        s.len() == 13,
        0 < n,
        -4_398_046_511_104 < offset_of(s, n, a) < 4_398_046_511_104,
    ensures
        ({
            let at_mean = a.0 * s[0] + a.1 * s[1] + a.2 * s[2] + offset_of(s, n, a) * n;
            67_108_864 * s[3] - n < at_mean < 67_108_864 * s[3] + n
        }),
{
    let q = s[3] * 67_108_864 - (a.0 * s[0] + a.1 * s[1] + a.2 * s[2]);
    lemma_quotient(q, n);
    let o = offset_of(s, n, a);
    assert(o == quotient(q, n));
    assert((o + 1) * n == o * n + n && (o - 1) * n == o * n - n) by (nonlinear_arith);
}

/// Slopes are held back by twice the mean variance of the channels of the background,
/// in 1024ths and rounded down, and by no less than the floor.
pub proof fn law_slopes_are_held_back_by_the_variance(t: Seq<int>)
    requires
        t.len() == 5,
        t[4] > 0,
    ensures
        ({
            let c = t[4];
            let spread = c * t[3] - (t[0] * t[0] + t[1] * t[1] + t[2] * t[2]);
            let r = restraint(t);
            &&& r == 61_839_980 || r * (3 * (c * c)) <= 2048 * spread
            &&& 2048 * spread < (r + 1) * (3 * (c * c))
            &&& r >= 61_839_980
        }),
{
    let c = t[4];
    let v = 2 * 1024 * (c * t[3] - (t[0] * t[0] + t[1] * t[1] + t[2] * t[2]));
    let n = 3 * (c * c);
    assert(0 < n) by (nonlinear_arith)
        requires
            n == 3 * (c * c),
            0 < c,
    ;
    let q = v / n;
    assert(q * n <= v < (q + 1) * n) by (nonlinear_arith)
        requires
            q == v / n,
            0 < n,
    ;
    let r = restraint(t);
    if v <= 0 {
        assert(0 < (r + 1) * n) by (nonlinear_arith)
            requires
                0 <= r,
                0 < n,
        ;
    } else {
        assert((q + 1) * n <= (r + 1) * n) by (nonlinear_arith)
            requires
                q <= r,
                0 < n,
        ;
    }
}

/// The table of a window holds the scatter of each channel with each, and what holds
/// the slopes back only where a channel meets itself.
pub proof fn law_only_the_diagonal_is_held_back(s: Seq<int>, n: int, e: int, m: Table)
    requires
        is_table(s, n, e, m),
    ensures
        m.m00 - e == scatter(n, s[4], s[0], s[0]),
        m.m01 == scatter(n, s[5], s[0], s[1]),
        m.m02 == scatter(n, s[6], s[0], s[2]),
        m.m11 - e == scatter(n, s[7], s[1], s[1]),
        m.m12 == scatter(n, s[8], s[1], s[2]),
        m.m22 - e == scatter(n, s[9], s[2], s[2]),
{
}

/// What comes out for a pixel is the mean of what the lines of all windows that hold it
/// say of its colour, to the nearest and held between 0 and 255.
pub proof fn law_evened_alpha_is_the_mean_of_all_lines(g: &Guide<'_>, x: int, y: int)
    requires
        g.wf(),
        0 <= x < g.w(),
        0 <= y < g.h(),
    ensures
        ({
            let says = |u: int, v: int|
                g.line(u, v)[0] * g.light(0, x, y) + g.line(u, v)[1] * g.light(1, x, y) + g.line(u, v)[2] * g.light(
                    2,
                    x,
                    y,
                ) + g.line(u, v)[3];
            let all = over(says, g.window(x, y));
            let whole = g.count(x, y) * 67_108_864;
            let v = g.evened(x, y);
            &&& 0 <= v <= 255
            &&& 0 < v ==> 2 * (v * whole) - whole <= 2 * all
            &&& v < 255 ==> 2 * all < 2 * (v * whole) + whole
        }),
{
    let area = g.window(x, y);
    let (a, b, c) = (g.light(0, x, y), g.light(1, x, y), g.light(2, x, y));
    let (f0, f1, f2, f3) = (slice(g.lines(), 0), slice(g.lines(), 1), slice(g.lines(), 2), slice(g.lines(), 3));
    let says = |u: int, v: int| g.line(u, v)[0] * a + g.line(u, v)[1] * b + g.line(u, v)[2] * c + g.line(u, v)[3];
    let (e0, e1, e2) = (
        |u: int, v: int| a * f0(u, v),
        |u: int, v: int| b * f1(u, v),
        |u: int, v: int| c * f2(u, v),
    );
    lemma_over_scaled(e0, f0, a, area);
    lemma_over_scaled(e1, f1, b, area);
    lemma_over_scaled(e2, f2, c, area);
    let (s1, s2) = (|u: int, v: int| e0(u, v) + e1(u, v), |u: int, v: int| e2(u, v) + f3(u, v));
    lemma_over_plus(e0, e1, s1, area);
    lemma_over_plus(e2, f3, s2, area);
    assert forall|u: int, v: int| #[trigger] says(u, v) == s1(u, v) + s2(u, v) by {
        let (p, q, r) = (g.line(u, v)[0] as int, g.line(u, v)[1] as int, g.line(u, v)[2] as int);
        assert(p * a == a * p && q * b == b * q && r * c == c * r) by (nonlinear_arith);
    }
    lemma_over_plus(s1, s2, says, area);
    let (o0, o1, o2) = (over(f0, area), over(f1, area), over(f2, area));
    assert(o0 * a == a * o0 && o1 * b == b * o1 && o2 * c == c * o2) by (nonlinear_arith);
    let all = over(says, area);
    assert(g.said(x, y) == all);
    let n = g.count(x, y);
    assert(n > 0) by (nonlinear_arith)
        requires
            n == wide(area) * high(area),
            wide(area) > 0,
            high(area) > 0,
    ;
    let whole = n * 67_108_864;
    if all > 0 {
        let v = (2 * all + whole) / (2 * whole);
        assert(v * (2 * whole) <= 2 * all + whole < (v + 1) * (2 * whole) && 0 <= v) by (nonlinear_arith)
            requires
                v == (2 * all + whole) / (2 * whole),
                0 < whole,
                0 < all,
        ;
        assert(v * (2 * whole) == 2 * (v * whole) && (v + 1) * (2 * whole) == 2 * (v * whole) + 2 * whole)
            by (nonlinear_arith);
        assert(255 <= v ==> 255 * whole <= v * whole) by (nonlinear_arith)
            requires
                0 < whole,
        ;
    }
}

proof fn lemma_span_plus(f: spec_fn(int) -> int, g: spec_fn(int) -> int, h: spec_fn(int) -> int, a: int, b: int)
    requires
        forall|k: int| a <= k < b ==> #[trigger] h(k) == f(k) + g(k),
    ensures
        span_sum(h, a, b) == span_sum(f, a, b) + span_sum(g, a, b),
    decreases b - a,
{
    if a < b {
        lemma_span_plus(f, g, h, a, b - 1);
        assert(h(b - 1) == f(b - 1) + g(b - 1));
    }
}

proof fn lemma_over_plus(
    f: spec_fn(int, int) -> int,
    g: spec_fn(int, int) -> int,
    h: spec_fn(int, int) -> int,
    r: Rect,
)
    requires
        forall|x: int, y: int| #[trigger] h(x, y) == f(x, y) + g(x, y),
    ensures
        over(h, r) == over(f, r) + over(g, r),
{
    let (a, b, c) = (
        |y: int| row_sum(f, r.0 as int, r.2 + 1, y),
        |y: int| row_sum(g, r.0 as int, r.2 + 1, y),
        |y: int| row_sum(h, r.0 as int, r.2 + 1, y),
    );
    assert forall|y: int| r.1 <= y < r.3 + 1 implies #[trigger] c(y) == a(y) + b(y) by {
        let (p, q, s) = (|x: int| f(x, y), |x: int| g(x, y), |x: int| h(x, y));
        assert forall|x: int| r.0 <= x < r.2 + 1 implies #[trigger] s(x) == p(x) + q(x) by {
            assert(h(x, y) == f(x, y) + g(x, y));
        }
        lemma_span_plus(p, q, s, r.0 as int, r.2 + 1);
    }
    lemma_span_plus(a, b, c, r.1 as int, r.3 + 1);
}

} // verus!

//! The line that tells alpha from colour in one window.
//!
//! In a window of the picture alpha is taken to be a linear function of colour.
//! The slopes are found by least squares, held back by as much as the background
//! itself scatters, so that its texture is not taken for a contour. Colours are
//! whole numbers up to `RIM_LINEAR_ONE`, alpha is one up to 255.
use vstd::prelude::*;

use crate::cutout::cells::RIM_LINEAR_ONE;

verus! {

/// The unit of scatter: so many parts to a squared colour.
pub const SCATTER_UNIT: i128 = 1024;

/// The least that slopes are held back by: a scatter of 0.015 of full light.
pub const SCATTER_FLOOR: i128 = 61_839_980;

/// The unit of slopes: so many parts to one alpha per colour.
pub const SLOPE_UNIT: i128 = 67_108_864;

/// No slope is steeper than one alpha per colour. Held back as they are, slopes
/// get no steeper than about a quarter of this.
pub const SLOPE_LIMIT: i128 = 67_108_864;

/// No offset is farther from 0.
pub const OFFSET_LIMIT: i128 = 4_398_046_511_104;

/// The most pixels that a window has.
pub const WINDOW_LIMIT: u64 = 261_121;

/// The places of the sums over a window: the channels of colour, alpha, the
/// products of two channels, and those of each channel and alpha.
pub open spec fn pair(i: int, j: int) -> int {
    if i == 0 {
        4 + j
    } else if i == 1 {
        6 + j
    } else {
        9
    }
}

/// A quotient, rounded toward 0.
pub open spec fn quotient(a: int, b: int) -> int {
    if a >= 0 {
        a / b
    } else {
        -(-a / b)
    }
}

/// How two quantities scatter together over `n` pixels, out of their sums and that
/// of their products.
pub open spec fn scatter(n: int, both: int, one: int, other: int) -> int {
    quotient((n * both - one * other) * SCATTER_UNIT, n * n)
}

/// By how much slopes are held back: twice the mean scatter of the channels of the
/// background in the window, and never less than the floor. `t` sums up its
/// colours, their squares, and its pixels.
pub open spec fn restraint(t: Seq<int>) -> int {
    let c = t[4];
    let v = 2 * SCATTER_UNIT * (c * t[3] - (t[0] * t[0] + t[1] * t[1] + t[2] * t[2]));
    if c == 0 || v <= 0 {
        SCATTER_FLOOR as int
    } else {
        let r = v / (3 * (c * c));
        if r < SCATTER_FLOOR {
            SCATTER_FLOOR as int
        } else {
            r
        }
    }
}

/// Entry `(i, j)` of the scatter of the channels, with `i <= j`.
pub open spec fn entry(s: Seq<int>, n: int, e: int, i: int, j: int) -> int {
    scatter(n, s[pair(i, j)], s[i], s[j]) + if i == j {
        e
    } else {
        0
    }
}

/// The scatter of channel `k` together with alpha.
pub open spec fn toward(s: Seq<int>, n: int, k: int) -> int {
    scatter(n, s[10 + k], s[k], s[3])
}

/// The upper half of a symmetric table of three by three.
pub struct Table {
    pub m00: i128,
    pub m01: i128,
    pub m02: i128,
    pub m11: i128,
    pub m12: i128,
    pub m22: i128,
}

/// The scatter of the channels.
pub open spec fn is_table(s: Seq<int>, n: int, e: int, m: Table) -> bool {
    &&& m.m00 == entry(s, n, e, 0, 0)
    &&& m.m01 == entry(s, n, e, 0, 1)
    &&& m.m02 == entry(s, n, e, 0, 2)
    &&& m.m11 == entry(s, n, e, 1, 1)
    &&& m.m12 == entry(s, n, e, 1, 2)
    &&& m.m22 == entry(s, n, e, 2, 2)
}

/// The cofactors of a table.
pub open spec fn is_cofactors(m: Table, c: Table) -> bool {
    &&& c.m00 == m.m11 * m.m22 - m.m12 * m.m12
    &&& c.m01 == m.m02 * m.m12 - m.m01 * m.m22
    &&& c.m02 == m.m01 * m.m12 - m.m02 * m.m11
    &&& c.m11 == m.m00 * m.m22 - m.m02 * m.m02
    &&& c.m12 == m.m01 * m.m02 - m.m00 * m.m12
    &&& c.m22 == m.m00 * m.m11 - m.m01 * m.m01
}

/// Held within the limit.
pub open spec fn limited(v: int, limit: int) -> int {
    if v > limit {
        limit
    } else if v < -limit {
        -limit
    } else {
        v
    }
}

/// A slope: a row of cofactors against the scatter with alpha, over the
/// determinant. A picture that is flat in the window has none.
pub open spec fn slope_of(row: (int, int, int), v: (int, int, int), det: int) -> int {
    if det < SLOPE_UNIT {
        0
    } else {
        limited(quotient(row.0 * v.0 + row.1 * v.1 + row.2 * v.2, det / (SLOPE_UNIT as int)), SLOPE_LIMIT as int)
    }
}

/// The offset of the line: it runs through the means.
pub open spec fn offset_of(s: Seq<int>, n: int, a: (int, int, int)) -> int {
    limited(
        quotient(s[3] * SLOPE_UNIT - (a.0 * s[0] + a.1 * s[1] + a.2 * s[2]), n),
        OFFSET_LIMIT as int,
    )
}

/// The line of a window: three slopes and an offset, out of the sums over its
/// pixels and over those of the background.
pub open spec fn is_line(s: Seq<int>, t: Seq<int>, n: int, r: [i64; 4]) -> bool {
    exists|m: Table, c: Table| #[trigger] is_line_by(s, t, n, m, c, r)
}

pub open spec fn is_line_by(s: Seq<int>, t: Seq<int>, n: int, m: Table, c: Table, r: [i64; 4]) -> bool {
    let det = m.m00 * c.m00 + m.m01 * c.m01 + m.m02 * c.m02;
    let v = (toward(s, n, 0), toward(s, n, 1), toward(s, n, 2));
    &&& is_table(s, n, restraint(t), m)
    &&& is_cofactors(m, c)
    &&& r[0] == slope_of((c.m00 as int, c.m01 as int, c.m02 as int), v, det)
    &&& r[1] == slope_of((c.m01 as int, c.m11 as int, c.m12 as int), v, det)
    &&& r[2] == slope_of((c.m02 as int, c.m12 as int, c.m22 as int), v, det)
    &&& r[3] == offset_of(s, n, (r[0] as int, r[1] as int, r[2] as int))
}

/// A window has one line.
pub proof fn lemma_one_line(s: Seq<int>, t: Seq<int>, n: int, a: [i64; 4], b: [i64; 4])
    requires
        is_line(s, t, n, a),
        is_line(s, t, n, b),
    ensures
        a[0] == b[0] && a[1] == b[1] && a[2] == b[2] && a[3] == b[3],
{
    let (m, c) = choose|m: Table, c: Table| #[trigger] is_line_by(s, t, n, m, c, a);
    let (p, q) = choose|m: Table, c: Table| #[trigger] is_line_by(s, t, n, m, c, b);
    assert(m == p);
    assert(c == q);
}

/// The sums over a window are those of `n` pixels.
pub open spec fn sums_ok(s: Seq<int>, n: int) -> bool {
    &&& s.len() == 13
    &&& 0 < n <= WINDOW_LIMIT
    &&& forall|k: int| 0 <= k < 3 ==> 0 <= #[trigger] s[k] <= RIM_LINEAR_ONE * n
    &&& 0 <= s[3] <= 255 * n
    &&& forall|k: int| 4 <= k < 10 ==> 0 <= #[trigger] s[k] <= 268_402_689 * n
    &&& forall|k: int| 10 <= k < 13 ==> 0 <= #[trigger] s[k] <= 4_177_665 * n
}

/// The sums over the background are those of `t[4]` pixels.
pub open spec fn shades_ok(t: Seq<int>) -> bool {
    &&& t.len() == 5
    &&& 0 <= t[4] <= WINDOW_LIMIT
    &&& forall|k: int| 0 <= k < 3 ==> 0 <= #[trigger] t[k] <= RIM_LINEAR_ONE * t[4]
    &&& 0 <= t[3] <= 805_208_067 * t[4]
}

proof fn lemma_product(a: int, b: int, x: int, y: int)
    requires
        -x <= a <= x,
        -y <= b <= y,
    ensures
        -(x * y) <= a * b <= x * y,
{
    assert(-(x * y) <= a * b <= x * y) by (nonlinear_arith)
        requires
            -x <= a <= x,
            -y <= b <= y,
    ;
}

fn divide(a: i128, b: i128) -> (r: i128)
    requires
        0 < b,
        -0x4000_0000_0000_0000_0000_0000_0000_0000 <= a <= 0x4000_0000_0000_0000_0000_0000_0000_0000,
    ensures
        r == quotient(a as int, b as int),
        a >= 0 ==> 0 <= r <= a,
        a <= 0 ==> a <= r <= 0,
{
    proof {
        if a >= 0 {
            assert(0 <= (a as int) / (b as int) <= a) by (nonlinear_arith)
                requires
                    0 <= a,
                    0 < b,
            ;
        } else {
            let m = -(a as int);
            assert(0 <= m / (b as int) <= m) by (nonlinear_arith)
                requires
                    0 <= m,
                    0 < b,
            ;
        }
    }
    if a >= 0 {
        a / b
    } else {
        -((-a) / b)
    }
}

proof fn lemma_quotient_bound(a: int, b: int, top: int)
    requires
        0 < b,
        -(top * b) <= a <= top * b,
    ensures
        -top <= quotient(a, b) <= top,
{
    if a >= 0 {
        assert(a / b <= top) by (nonlinear_arith)
            requires
                0 <= a <= top * b,
                0 < b,
        ;
    } else {
        let m = -a;
        assert(m / b <= top) by (nonlinear_arith)
            requires
                0 <= m <= top * b,
                0 < b,
        ;
    }
}

fn scatter_of(n: u64, both: u64, one: u64, other: u64, Ghost(x): Ghost<int>, Ghost(y): Ghost<int>) -> (r: i128)
    requires
        0 < n <= WINDOW_LIMIT,
        0 <= x <= RIM_LINEAR_ONE,
        0 <= y <= RIM_LINEAR_ONE,
        one <= x * n,
        other <= y * n,
        both <= (x * y) * n,
    ensures
        r == scatter(n as int, both as int, one as int, other as int),
        -((x * y) * SCATTER_UNIT) <= r <= (x * y) * SCATTER_UNIT,
{
    proof {
        let (ni, b, o, p) = (n as int, both as int, one as int, other as int);
        assert(0 <= x * y <= 16_383 * 16_383) by (nonlinear_arith)
            requires
                0 <= x <= 16_383,
                0 <= y <= 16_383,
        ;
        assert(0 <= ni * b <= (x * y) * (ni * ni)) by (nonlinear_arith)
            requires
                0 <= b <= (x * y) * ni,
                0 <= ni,
        ;
        assert(0 <= o * p <= (x * ni) * (y * ni)) by (nonlinear_arith)
            requires
                0 <= o <= x * ni,
                0 <= p <= y * ni,
        ;
        assert((x * ni) * (y * ni) == (x * y) * (ni * ni)) by (nonlinear_arith);
        assert(0 < ni * ni <= 261_121 * 261_121) by (nonlinear_arith)
            requires
                0 < ni <= 261_121,
        ;
        assert((x * y) * (ni * ni) <= (16_383 * 16_383) * (261_121 * 261_121)) by (nonlinear_arith)
            requires
                0 <= x * y <= 16_383 * 16_383,
                0 < ni * ni <= 261_121 * 261_121,
        ;
        let d = ni * b - o * p;
        assert(((x * y) * (ni * ni)) * SCATTER_UNIT == ((x * y) * SCATTER_UNIT) * (ni * ni)) by (nonlinear_arith);
        lemma_quotient_bound(d * SCATTER_UNIT, ni * ni, (x * y) * SCATTER_UNIT);
    }
    let d: i128 = (n as i128) * (both as i128) - (one as i128) * (other as i128);
    divide(d * SCATTER_UNIT, (n as i128) * (n as i128))
}

fn restraint_of(t: &[u64; 5]) -> (r: i128)
    requires
        shades_ok(as_ints(*t)),
    ensures
        r == restraint(as_ints(*t)),
        SCATTER_FLOOR <= r <= 549_688_707_072,
{
    let ghost s = as_ints(*t);
    let c: i128 = t[4] as i128;
    if t[4] == 0 {
        return SCATTER_FLOOR;
    }
    let (a, b, d, q): (i128, i128, i128, i128) = (t[0] as i128, t[1] as i128, t[2] as i128, t[3] as i128);
    proof {
        assert(s[0] == a && s[1] == b && s[2] == d && s[3] == q && s[4] == c);
        let ci = c as int;
        let top = 16_383 * 261_121int;
        assert(RIM_LINEAR_ONE * ci <= top);
        lemma_product(a as int, a as int, top, top);
        lemma_product(b as int, b as int, top, top);
        lemma_product(d as int, d as int, top, top);
        assert(0 <= a * a && 0 <= b * b && 0 <= d * d) by (nonlinear_arith);
        assert(0 <= ci * q <= 805_208_067 * (ci * ci)) by (nonlinear_arith)
            requires
                0 <= q <= 805_208_067 * ci,
                0 <= ci,
        ;
        assert(0 < ci * ci <= 261_121 * 261_121) by (nonlinear_arith)
            requires
                0 < ci <= 261_121,
        ;
    }
    let v: i128 = 2 * SCATTER_UNIT * (c * q - (a * a + b * b + d * d));
    if v <= 0 {
        return SCATTER_FLOOR;
    }
    let by: i128 = 3 * (c * c);
    proof {
        assert(v <= 549_688_707_072 * by) by {
            assert(2 * 1024 * (805_208_067 * (c * c)) <= 549_688_707_072 * (3 * (c * c))) by (nonlinear_arith)
                requires
                    0 <= c * c,
            ;
        }
        lemma_quotient_bound(v as int, by as int, 549_688_707_072);
        assert(quotient(v as int, by as int) == (v as int) / (by as int));
    }
    let r: i128 = v / by;
    if r < SCATTER_FLOOR {
        SCATTER_FLOOR
    } else {
        r
    }
}

/// The product of two entries of a table.
fn entries(a: i128, b: i128) -> (r: i128)
    requires
        -0x100_0000_0000 <= a <= 0x100_0000_0000,
        -0x100_0000_0000 <= b <= 0x100_0000_0000,
    ensures
        r == a * b,
        -0x1_0000_0000_0000_0000_0000 <= r <= 0x1_0000_0000_0000_0000_0000,
{
    proof {
        lemma_product(a as int, b as int, 0x100_0000_0000, 0x100_0000_0000);
    }
    a * b
}

/// The product of a cofactor and an entry.
fn weigh(a: i128, b: i128) -> (r: i128)
    requires
        -0x2_0000_0000_0000_0000_0000 <= a <= 0x2_0000_0000_0000_0000_0000,
        -0x100_0000_0000 <= b <= 0x100_0000_0000,
    ensures
        r == a * b,
        -0x200_0000_0000_0000_0000_0000_0000_0000 <= r <= 0x200_0000_0000_0000_0000_0000_0000_0000,
{
    proof {
        lemma_product(a as int, b as int, 0x2_0000_0000_0000_0000_0000, 0x100_0000_0000);
    }
    a * b
}

/// The entries of a table are small.
spec fn small(m: Table) -> bool {
    let b = 0x100_0000_0000int;
    &&& -b <= m.m00 <= b
    &&& -b <= m.m01 <= b
    &&& -b <= m.m02 <= b
    &&& -b <= m.m11 <= b
    &&& -b <= m.m12 <= b
    &&& -b <= m.m22 <= b
}

/// Cofactors of small entries.
spec fn medium(c: Table) -> bool {
    let b = 0x2_0000_0000_0000_0000_0000int;
    &&& -b <= c.m00 <= b
    &&& -b <= c.m01 <= b
    &&& -b <= c.m02 <= b
    &&& -b <= c.m11 <= b
    &&& -b <= c.m12 <= b
    &&& -b <= c.m22 <= b
}

fn cofactors_of(m: &Table) -> (c: Table)
    requires
        small(*m),
    ensures
        is_cofactors(*m, c),
        medium(c),
{
    Table {
        m00: entries(m.m11, m.m22) - entries(m.m12, m.m12),
        m01: entries(m.m02, m.m12) - entries(m.m01, m.m22),
        m02: entries(m.m01, m.m12) - entries(m.m02, m.m11),
        m11: entries(m.m00, m.m22) - entries(m.m02, m.m02),
        m12: entries(m.m01, m.m02) - entries(m.m00, m.m12),
        m22: entries(m.m00, m.m11) - entries(m.m01, m.m01),
    }
}

fn limit(v: i128, most: i128) -> (r: i128)
    requires
        0 <= most,
    ensures
        r == limited(v as int, most as int),
        -most <= r <= most,
{
    if v > most {
        most
    } else if v < -most {
        -most
    } else {
        v
    }
}

fn slope(row: (i128, i128, i128), v: (i128, i128, i128), det: i128) -> (r: i64)
    requires
        -0x2_0000_0000_0000_0000_0000 <= row.0 <= 0x2_0000_0000_0000_0000_0000,
        -0x2_0000_0000_0000_0000_0000 <= row.1 <= 0x2_0000_0000_0000_0000_0000,
        -0x2_0000_0000_0000_0000_0000 <= row.2 <= 0x2_0000_0000_0000_0000_0000,
        -0x100_0000_0000 <= v.0 <= 0x100_0000_0000,
        -0x100_0000_0000 <= v.1 <= 0x100_0000_0000,
        -0x100_0000_0000 <= v.2 <= 0x100_0000_0000,
    ensures
        r == slope_of(
            (row.0 as int, row.1 as int, row.2 as int),
            (v.0 as int, v.1 as int, v.2 as int),
            det as int,
        ),
        -SLOPE_LIMIT <= r <= SLOPE_LIMIT,
{
    if det < SLOPE_UNIT {
        return 0;
    }
    let along: i128 = weigh(row.0, v.0) + weigh(row.1, v.1) + weigh(row.2, v.2);
    limit(divide(along, det / SLOPE_UNIT), SLOPE_LIMIT) as i64
}

/// Sums out of whole numbers.
pub open spec fn as_ints<const N: usize>(s: [u64; N]) -> Seq<int> {
    s@.map_values(|v: u64| v as int)
}

fn table_of(s: &[u64; 13], n: u64, e: i128) -> (m: Table)
    requires
        sums_ok(as_ints(*s), n as int),
        0 <= e <= 549_688_707_072,
    ensures
        is_table(as_ints(*s), n as int, e as int, m),
        small(m),
{
    let ghost v = as_ints(*s);
    let ghost top = RIM_LINEAR_ONE as int;
    proof {
        assert(v[0] == s[0] && v[1] == s[1] && v[2] == s[2]);
        assert(v[4] == s[4] && v[5] == s[5] && v[6] == s[6] && v[7] == s[7] && v[8] == s[8] && v[9] == s[9]);
        assert(top * top == 268_402_689) by (nonlinear_arith)
            requires
                top == 16_383,
        ;
    }
    Table {
        m00: scatter_of(n, s[4], s[0], s[0], Ghost(top), Ghost(top)) + e,
        m01: scatter_of(n, s[5], s[0], s[1], Ghost(top), Ghost(top)),
        m02: scatter_of(n, s[6], s[0], s[2], Ghost(top), Ghost(top)),
        m11: scatter_of(n, s[7], s[1], s[1], Ghost(top), Ghost(top)) + e,
        m12: scatter_of(n, s[8], s[1], s[2], Ghost(top), Ghost(top)),
        m22: scatter_of(n, s[9], s[2], s[2], Ghost(top), Ghost(top)) + e,
    }
}

fn offset(s: &[u64; 13], n: u64, a: (i64, i64, i64)) -> (r: i64)
    requires
        sums_ok(as_ints(*s), n as int),
        -SLOPE_LIMIT <= a.0 <= SLOPE_LIMIT,
        -SLOPE_LIMIT <= a.1 <= SLOPE_LIMIT,
        -SLOPE_LIMIT <= a.2 <= SLOPE_LIMIT,
    ensures
        r == offset_of(as_ints(*s), n as int, (a.0 as int, a.1 as int, a.2 as int)),
        -OFFSET_LIMIT <= r <= OFFSET_LIMIT,
{
    proof {
        let v = as_ints(*s);
        assert(v[0] == s[0] && v[1] == s[1] && v[2] == s[2] && v[3] == s[3]);
        let top = 16_383 * 261_121int;
        lemma_product(a.0 as int, s[0] as int, SLOPE_LIMIT as int, top);
        lemma_product(a.1 as int, s[1] as int, SLOPE_LIMIT as int, top);
        lemma_product(a.2 as int, s[2] as int, SLOPE_LIMIT as int, top);
    }
    let down: i128 = (a.0 as i128) * (s[0] as i128) + (a.1 as i128) * (s[1] as i128) + (a.2 as i128) * (s[2] as i128);
    limit(divide((s[3] as i128) * SLOPE_UNIT - down, n as i128), OFFSET_LIMIT) as i64
}

/// Finds the line of a window.
pub fn line_of(s: &[u64; 13], t: &[u64; 5], n: u64) -> (r: [i64; 4])
    requires
        sums_ok(as_ints(*s), n as int),
        shades_ok(as_ints(*t)),
    ensures
        is_line(as_ints(*s), as_ints(*t), n as int, r),
        forall|k: int| 0 <= k < 3 ==> -SLOPE_LIMIT <= #[trigger] r[k] <= SLOPE_LIMIT,
        -OFFSET_LIMIT <= r[3] <= OFFSET_LIMIT,
{
    let e: i128 = restraint_of(t);
    let m: Table = table_of(s, n, e);
    let c: Table = cofactors_of(&m);
    proof {
        let x = as_ints(*s);
        assert(x[0] == s[0] && x[1] == s[1] && x[2] == s[2] && x[3] == s[3]);
        assert(x[10] == s[10] && x[11] == s[11] && x[12] == s[12]);
    }
    let v: (i128, i128, i128) = (
        scatter_of(n, s[10], s[0], s[3], Ghost(16_383), Ghost(255)),
        scatter_of(n, s[11], s[1], s[3], Ghost(16_383), Ghost(255)),
        scatter_of(n, s[12], s[2], s[3], Ghost(16_383), Ghost(255)),
    );
    let det: i128 = weigh(c.m00, m.m00) + weigh(c.m01, m.m01) + weigh(c.m02, m.m02);
    assert(det == m.m00 * c.m00 + m.m01 * c.m01 + m.m02 * c.m02) by (nonlinear_arith)
        requires
            det == c.m00 * m.m00 + c.m01 * m.m01 + c.m02 * m.m02,
    ;
    let a0: i64 = slope((c.m00, c.m01, c.m02), v, det);
    let a1: i64 = slope((c.m01, c.m11, c.m12), v, det);
    let a2: i64 = slope((c.m02, c.m12, c.m22), v, det);
    let r: [i64; 4] = [a0, a1, a2, offset(s, n, (a0, a1, a2))];
    assert(is_line_by(as_ints(*s), as_ints(*t), n as int, m, c, r));
    r
}

} // verus!

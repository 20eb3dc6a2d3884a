//! Which of two gathered colours a pixel leans to.
//!
//! Distances are taken relative to the spread of each colour: the shadow between
//! two fibres is far from the mean of a cloth and still within its spread.
use vstd::prelude::*;

use crate::cutout::cells::{linear_ok, Sums, RIM_LINEAR_ONE, RIM_SQUARE_ONE};
use crate::cutout::local_colour::Lean;

verus! {

/// Means and spreads are in this part of a unit of linear light.
pub const FINE: u64 = 1024;

/// Squares are in this part.
pub const FINE_SQUARE: u64 = 1_048_576;

/// What is added to every spread, 0.015 of full light: the noise of a flat area.
/// Without it a background of one colour would have no spread at all.
pub const RIM_SIGMA_FLOOR: u64 = 251_643;

/// How many times nearer one side has to be.
pub const RIM_NEARER: u64 = 2;

/// How many spreads the two colours have to be apart for anything to be said.
pub const MIN_RIM_SEPARATION_SIGMA: u64 = 2;

/// `r` is the square root of `x`, rounded down.
pub open spec fn is_root(x: int, r: int) -> bool {
    0 <= r && r * r <= x < (r + 1) * (r + 1)
}

/// The square root, rounded down.
pub open spec fn root(x: int) -> int {
    choose|r: int| is_root(x, r)
}

/// There is one root only.
pub proof fn lemma_root(x: int, r: int)
    requires
        is_root(x, r),
    ensures
        root(x) == r,
{
    let s = root(x);
    assert(is_root(x, s));
    assert(r == s) by (nonlinear_arith)
        requires
            0 <= r,
            0 <= s,
            r * r <= x < (r + 1) * (r + 1),
            s * s <= x < (s + 1) * (s + 1),
    ;
}

fn root_of(x: u64) -> (r: u64)
    requires
        x < 0x10_0000_0000_0000,
    ensures
        r == root(x as int),
        r < 0x400_0000,
{
    let mut lo: u64 = 0;
    let mut hi: u64 = 0x400_0000;
    assert(0x400_0000 * 0x400_0000 == 0x10_0000_0000_0000int) by (nonlinear_arith);
    while lo + 1 < hi
        invariant
            x < 0x10_0000_0000_0000,
            0 <= lo < hi <= 0x400_0000,
            lo * lo <= x < hi * hi,
        decreases hi - lo,
    {
        let mid: u64 = lo + (hi - lo) / 2;
        assert(0 <= mid * mid <= 0x10_0000_0000_0000) by (nonlinear_arith)
            requires
                0 <= mid <= 0x400_0000,
        ;
        if mid * mid <= x {
            lo = mid;
        } else {
            hi = mid;
        }
    }
    proof {
        assert(is_root(x as int, lo as int));
        lemma_root(x as int, lo as int);
    }
    lo
}

/// The sums are of pixels within full light.
pub open spec fn lit(s: Sums) -> bool {
    &&& forall|k: int| 0 <= k < 3 ==> #[trigger] s.rgb[k] <= RIM_LINEAR_ONE * s.n
    &&& s.squares <= RIM_SQUARE_ONE * s.n
}

/// The mean of a channel, in fine units and rounded down.
pub open spec fn mean_at(s: Sums, k: int) -> int {
    (s.rgb[k] * FINE) / (s.n as int)
}

/// The mean square of the length of a colour, in squared fine units.
pub open spec fn mean_square(s: Sums) -> int {
    (s.squares * FINE_SQUARE) / (s.n as int)
}

/// The squared distance of a colour from a mean.
pub open spec fn apart(c: (int, int, int), s: Sums) -> int {
    let (r, g, b) = (c.0 - mean_at(s, 0), c.1 - mean_at(s, 1), c.2 - mean_at(s, 2));
    r * r + g * g + b * b
}

/// The mean as a colour.
pub open spec fn mean_colour(s: Sums) -> (int, int, int) {
    (mean_at(s, 0), mean_at(s, 1), mean_at(s, 2))
}

/// The spread: the square root of the variance, taken over the channels.
pub open spec fn spread(s: Sums) -> int {
    let v = mean_square(s) - (mean_at(s, 0) * mean_at(s, 0) + mean_at(s, 1) * mean_at(s, 1) + mean_at(s, 2) * mean_at(
        s,
        2,
    ));
    root(
        if v < 0 {
            0
        } else {
            v / 3
        },
    )
}

/// The two colours are known and far enough apart for their spreads.
pub open spec fn can_judge(behind: Sums, front: Sums) -> bool {
    behind.n > 0 && front.n > 0 && root(apart(mean_colour(front), behind)) >= MIN_RIM_SEPARATION_SIGMA * (spread(behind)
        + spread(front) + 2 * RIM_SIGMA_FLOOR)
}

/// Which side a colour leans to, if that can be judged: the side that is twice as
/// near, relative to its spread.
pub open spec fn lean_of(behind: Sums, front: Sums, c: (int, int, int)) -> Option<Lean> {
    let (sb, sf) = (spread(behind) + RIM_SIGMA_FLOOR, spread(front) + RIM_SIGMA_FLOOR);
    let (db, df) = (root(apart(c, behind)), root(apart(c, front)));
    if !can_judge(behind, front) {
        None
    } else if RIM_NEARER * (db * sf) < df * sb {
        Some(Lean::Background)
    } else if RIM_NEARER * (df * sb) < db * sf {
        Some(Lean::Foreground)
    } else {
        Some(Lean::Neither)
    }
}

/// A pixel in fine units of linear light.
pub open spec fn colour_of(linear: Seq<u32>, p: [u8; 4]) -> (int, int, int) {
    (
        linear[p[0] as int] * FINE,
        linear[p[1] as int] * FINE,
        linear[p[2] as int] * FINE,
    )
}

fn mean(total: u64, n: u64) -> (r: u64)
    requires
        0 < n,
        total <= RIM_LINEAR_ONE * n,
    ensures
        r == (total * FINE) / (n as int),
        r <= 16_776_192,
{
    let product: u128 = (total as u128) * (FINE as u128);
    proof {
        assert(0 <= product / (n as u128) <= 16_776_192) by (nonlinear_arith)
            requires
                product == total * 1024,
                total <= 16_383 * n,
                0 < n,
        ;
    }
    (product / (n as u128)) as u64
}

/// The mean colour of a sum.
fn mean_of(s: &Sums) -> (r: (u64, u64, u64))
    requires
        s.n > 0,
        lit(*s),
    ensures
        (r.0 as int, r.1 as int, r.2 as int) == mean_colour(*s),
        r.0 <= 16_776_192,
        r.1 <= 16_776_192,
        r.2 <= 16_776_192,
{
    assert(s.rgb[0] <= RIM_LINEAR_ONE * s.n && s.rgb[1] <= RIM_LINEAR_ONE * s.n && s.rgb[2] <= RIM_LINEAR_ONE * s.n);
    (mean(s.rgb[0], s.n), mean(s.rgb[1], s.n), mean(s.rgb[2], s.n))
}

/// The square of a difference.
fn off(a: u64, b: u64) -> (r: u64)
    requires
        a <= 16_776_192,
        b <= 16_776_192,
    ensures
        r == (a - b) * (a - b),
        r <= 0x1_0000_0000_0000,
{
    let d: u64 = if a < b { b - a } else { a - b };
    proof {
        assert(0 <= d * d <= 0x1_0000_0000_0000) by (nonlinear_arith)
            requires
                0 <= d <= 0x100_0000,
        ;
        assert((a - b) * (a - b) == d * d) by (nonlinear_arith)
            requires
                d == a - b || d == b - a,
        ;
    }
    d * d
}

/// The distance of two colours.
fn distance3(a: (u64, u64, u64), b: (u64, u64, u64)) -> (r: u64)
    requires
        a.0 <= 16_776_192 && a.1 <= 16_776_192 && a.2 <= 16_776_192,
        b.0 <= 16_776_192 && b.1 <= 16_776_192 && b.2 <= 16_776_192,
    ensures
        r == root((a.0 - b.0) * (a.0 - b.0) + (a.1 - b.1) * (a.1 - b.1) + (a.2 - b.2) * (a.2 - b.2)),
        r < 0x400_0000,
{
    root_of(off(a.0, b.0) + off(a.1, b.1) + off(a.2, b.2))
}

/// The spread of a sum around its mean.
fn spread_of(s: &Sums, m: (u64, u64, u64)) -> (r: u64)
    requires
        s.n > 0,
        lit(*s),
        (m.0 as int, m.1 as int, m.2 as int) == mean_colour(*s),
        m.0 <= 16_776_192 && m.1 <= 16_776_192 && m.2 <= 16_776_192,
    ensures
        r == spread(*s),
        r < 0x400_0000,
{
    let product: u128 = (s.squares as u128) * (FINE_SQUARE as u128);
    proof {
        assert(0 <= product / (s.n as u128) <= 844_321_854_062_592) by (nonlinear_arith)
            requires
                product == s.squares * 1_048_576,
                s.squares <= 805_208_067 * s.n,
                0 < s.n,
        ;
    }
    let square: u64 = (product / (s.n as u128)) as u64;
    let of_mean: u64 = off(m.0, 0) + off(m.1, 0) + off(m.2, 0);
    let v: u64 = if square < of_mean { 0 } else { (square - of_mean) / 3 };
    root_of(v)
}

/// Tells which side a pixel leans to.
pub fn lean(behind: &Sums, front: &Sums, linear: &[u32], p: [u8; 4]) -> (r: Option<Lean>)
    requires
        linear_ok(linear@),
        lit(*behind),
        lit(*front),
    ensures
        r == lean_of(*behind, *front, colour_of(linear@, p)),
{
    if behind.n == 0 || front.n == 0 {
        return None;
    }
    let b: (u64, u64, u64) = mean_of(behind);
    let f: (u64, u64, u64) = mean_of(front);
    let sb: u64 = spread_of(behind, b);
    let sf: u64 = spread_of(front, f);
    if distance3(f, b) < MIN_RIM_SEPARATION_SIGMA * (sb + sf + 2 * RIM_SIGMA_FLOOR) {
        return None;
    }
    let c: (u64, u64, u64) = (
        (linear[p[0] as usize] as u64) * FINE,
        (linear[p[1] as usize] as u64) * FINE,
        (linear[p[2] as usize] as u64) * FINE,
    );
    let (wb, wf): (u64, u64) = (sb + RIM_SIGMA_FLOOR, sf + RIM_SIGMA_FLOOR);
    let (db, df): (u64, u64) = (distance3(c, b), distance3(c, f));
    proof {
        assert(0 <= db * wf <= 0x40_0000_0000_0000 && 0 <= df * wb <= 0x40_0000_0000_0000) by (nonlinear_arith)
            requires
                0 <= db <= 0x400_0000,
                0 <= df <= 0x400_0000,
                0 <= wb <= 0x800_0000,
                0 <= wf <= 0x800_0000,
        ;
    }
    if RIM_NEARER * (db * wf) < df * wb {
        Some(Lean::Background)
    } else if RIM_NEARER * (df * wb) < db * wf {
        Some(Lean::Foreground)
    } else {
        Some(Lean::Neither)
    }
}

} // verus!

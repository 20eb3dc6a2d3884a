//! Recovering the colour of the product at the boundary.
//!
//! An observed colour is a mixture of the product and of what lies behind it.
//! Solving the mixture for the product magnifies every error as the share of the
//! product gets small, so the answer is held back in three ways, none of which
//! jumps from one pixel to the next: it stays near the colours that were seen, it
//! is not believed where the mixture could not be, and it is believed less the
//! smaller the share is.
use vstd::prelude::*;

use crate::cutout::field::{eight_bits, steps_taken};
use crate::cutout::matte::{all_light, Answer, LINEAR_UNIT, WHOLE};
use crate::geometry::{at, lemma_at_bound, lemma_at_distinct};
use crate::raster::RgbaImage;
use crate::tally::tally;

verus! {

/// How far a recovered colour may stray from the colours that were seen: 0.05 in
/// linear light.
pub const RECOVER_SLACK: u64 = 3_435_973_837;

/// The parts of a whole in which a share is counted where it divides.
pub const SHARE_PARTS: u64 = 21_474_836_480;

/// The share by which a mixture is divided: no less than 0.05.
pub open spec fn divisor(share: int) -> int {
    if 20 * share < WHOLE {
        WHOLE as int
    } else {
        20 * share
    }
}

/// How far solving the mixture would take a channel, times the divisor.
pub open spec fn pull(observed: int, behind: int, share: int) -> int {
    (observed - behind) * (SHARE_PARTS - divisor(share))
}

pub open spec fn magnitude(v: int) -> int {
    if v < 0 {
        -v
    } else {
        v
    }
}

/// How far a channel may go: past the colour in front, if that lies ahead, by no
/// more than the slack.
pub open spec fn room(observed: int, front: int, up: bool) -> int {
    let ahead = if up { front - observed } else { observed - front };
    RECOVER_SLACK + if ahead > 0 {
        ahead
    } else {
        0
    }
}

/// The share of its way that a channel may go.
pub open spec fn allowed(observed: int, behind: int, front: int, share: int) -> int {
    let d = pull(observed, behind, share);
    if d == 0 {
        WHOLE as int
    } else {
        let r = (room(observed, front, d > 0) * divisor(share) * WHOLE) / magnitude(d);
        if r < WHOLE {
            r
        } else {
            WHOLE as int
        }
    }
}

pub open spec fn least(a: int, b: int, c: int) -> int {
    let m = if a < b { a } else { b };
    if m < c {
        m
    } else {
        c
    }
}

pub open spec fn most(a: int, b: int, c: int) -> int {
    let m = if a < b { b } else { a };
    if m < c {
        c
    } else {
        m
    }
}

/// The alpha under which the mixture would take light that is not there.
pub open spec fn shortfall(observed: int, behind: int) -> int {
    if behind > observed {
        ((behind - observed) * WHOLE) / behind
    } else {
        0
    }
}

/// From 0 to a whole with no slope at either end.
pub open spec fn smoothstep(t: int) -> int {
    (t * t * (3 * WHOLE - 2 * t)) / (WHOLE * WHOLE)
}

/// How far alpha is above the least that can be, in 0.15 at most.
pub open spec fn headroom(alpha: int, floor: int) -> int {
    if alpha <= floor {
        0
    } else {
        let t = (20 * (alpha - floor)) / 3;
        if t < WHOLE {
            t
        } else {
            WHOLE as int
        }
    }
}

/// How far the solved colour is believed.
pub open spec fn trust(alpha: int, floor: int) -> int {
    (smoothstep(alpha) * smoothstep(headroom(alpha, floor))) / (WHOLE as int)
}

/// A part of the way along `d / m`.
pub open spec fn moved(from: int, d: int, m: int, part: int) -> int {
    if d >= 0 {
        from + (part * d) / (WHOLE * m)
    } else {
        from - (part * -d) / (WHOLE * m)
    }
}

/// The share of its way that the colour of an answer goes, so that no channel goes
/// too far. All channels go the same share: the hue stays.
pub open spec fn way(a: Answer) -> int {
    least(
        allowed(a.observed[0] as int, a.behind[0] as int, a.front[0] as int, a.share as int),
        allowed(a.observed[1] as int, a.behind[1] as int, a.front[1] as int, a.share as int),
        allowed(a.observed[2] as int, a.behind[2] as int, a.front[2] as int, a.share as int),
    )
}

/// How far an answer is believed.
pub open spec fn belief(a: Answer) -> int {
    trust(
        a.share as int,
        most(
            shortfall(a.observed[0] as int, a.behind[0] as int),
            shortfall(a.observed[1] as int, a.behind[1] as int),
            shortfall(a.observed[2] as int, a.behind[2] as int),
        ),
    )
}

/// Channel `k` of the colour that the mixture is solved for.
pub open spec fn solved_light(a: Answer, k: int) -> int {
    moved(
        a.observed[k] as int,
        pull(a.observed[k] as int, a.behind[k] as int, a.share as int),
        divisor(a.share as int),
        way(a),
    )
}

/// Channel `k` of the recovered colour: between that in front and the solved one,
/// by how far this is believed.
pub open spec fn recovered_light(a: Answer, k: int) -> int {
    moved(a.front[k] as int, solved_light(a, k) - a.front[k], 1, belief(a))
}

/// Held between no light and all of it.
pub open spec fn visible(v: int) -> int {
    if v < 0 {
        0
    } else if v > LINEAR_UNIT {
        LINEAR_UNIT as int
    } else {
        v
    }
}

fn allowed_share(observed: u64, behind: u64, front: u64, share: u64) -> (r: u64)
    requires
        share <= WHOLE,
        observed <= LINEAR_UNIT,
        behind <= LINEAR_UNIT,
        front <= LINEAR_UNIT,
    ensures
        r == allowed(observed as int, behind as int, front as int, share as int),
        r <= WHOLE,
{
    let m: u64 = if 20 * share < WHOLE { WHOLE } else { 20 * share };
    let left: u64 = SHARE_PARTS - m;
    let up: bool = observed >= behind;
    let apart: u64 = if up { observed - behind } else { behind - observed };
    proof {
        let (o, b, n) = (observed as int, behind as int, left as int);
        assert((apart as int) * n <= LINEAR_UNIT * 21_474_836_480) by (nonlinear_arith)
            requires
                0 <= apart <= LINEAR_UNIT,
                0 <= n <= 21_474_836_480,
        ;
        assert(magnitude((o - b) * n) == apart * n && ((o - b) * n > 0 <==> up && apart * n != 0)) by (nonlinear_arith)
            requires
                0 <= n,
                apart == (if up { o - b } else { b - o }),
                up == (o >= b),
        ;
    }
    let d: u128 = (apart as u128) * (left as u128);
    if d == 0 {
        return WHOLE;
    }
    let ahead: u64 = if up {
        if front > observed { front - observed } else { 0 }
    } else {
        if observed > front { observed - front } else { 0 }
    };
    let reach: u64 = RECOVER_SLACK + ahead;
    proof {
        assert((reach as int) * (m as int) <= 73_000_000_000 * 21_474_836_480) by (nonlinear_arith)
            requires
                0 <= reach <= 73_000_000_000,
                0 <= m <= 21_474_836_480,
        ;
        assert((reach * m) * WHOLE <= (73_000_000_000 * 21_474_836_480) * 1_073_741_824) by (nonlinear_arith)
            requires
                0 <= reach * m <= 73_000_000_000 * 21_474_836_480,
                WHOLE == 1_073_741_824,
        ;
    }
    let r: u128 = ((reach as u128) * (m as u128) * (WHOLE as u128)) / d;
    if r < WHOLE as u128 {
        r as u64
    } else {
        WHOLE
    }
}

fn shortfall_share(observed: u64, behind: u64) -> (r: u64)
    requires
        observed <= LINEAR_UNIT,
        behind <= LINEAR_UNIT,
    ensures
        r == shortfall(observed as int, behind as int),
        r <= WHOLE,
{
    if behind <= observed {
        return 0;
    }
    let gap: u64 = behind - observed;
    proof {
        assert(gap * WHOLE <= behind * WHOLE <= 68_719_476_736 * 1_073_741_824) by (nonlinear_arith)
            requires
                0 <= gap <= behind <= 68_719_476_736,
                WHOLE == 1_073_741_824,
        ;
        lemma_div_le(gap * WHOLE, behind as int, WHOLE as int);
    }
    (((gap as u128) * (WHOLE as u128)) / (behind as u128)) as u64
}

/// A quotient is bounded if its dividend is.
proof fn lemma_div_le(n: int, d: int, q: int)
    requires
        0 <= n <= d * q || 0 <= n <= q * d,
        0 < d,
        0 <= q,
    ensures
        0 <= n / d <= q,
{
    assert(0 <= n / d <= q) by (nonlinear_arith)
        requires
            0 <= n <= d * q,
            0 < d,
            0 <= q,
    ;
}

proof fn lemma_smoothstep(t: int)
    requires
        0 <= t <= WHOLE,
    ensures
        0 <= t * t,
        0 <= t * t * (3 * WHOLE - 2 * t) <= WHOLE * WHOLE * WHOLE,
        0 <= smoothstep(t) <= WHOLE,
{
    let w = WHOLE as int;
    assert(0 <= t * t) by (nonlinear_arith);
    assert(0 <= t * t * (3 * w - 2 * t)) by (nonlinear_arith)
        requires
            0 <= t * t,
            t <= w,
            0 <= w,
    ;
    assert(w * w * w - t * t * (3 * w - 2 * t) == (w - t) * (w - t) * (w + 2 * t)) by (nonlinear_arith);
    assert(0 <= (w - t) * (w - t) * (w + 2 * t)) by (nonlinear_arith)
        requires
            0 <= t <= w,
    ;
    lemma_div_le(t * t * (3 * w - 2 * t), w * w, w);
}

fn smooth(t: u64) -> (r: u64)
    requires
        t <= WHOLE,
    ensures
        r == smoothstep(t as int),
        r <= WHOLE,
{
    proof {
        lemma_smoothstep(t as int);
        assert(t * t <= WHOLE * WHOLE) by (nonlinear_arith)
            requires
                0 <= t <= WHOLE,
        ;
        assert(WHOLE * WHOLE * WHOLE == 1_237_940_039_285_380_274_899_124_224int) by (nonlinear_arith)
            requires
                WHOLE == 1_073_741_824,
        ;
        assert(WHOLE * WHOLE == 1_152_921_504_606_846_976int) by (nonlinear_arith)
            requires
                WHOLE == 1_073_741_824,
        ;
    }
    let t: u128 = t as u128;
    let w: u128 = WHOLE as u128;
    ((t * t * (3 * w - 2 * t)) / (w * w)) as u64
}

proof fn lemma_trust(alpha: int, floor: int)
    requires
        0 <= alpha <= WHOLE,
        0 <= floor <= WHOLE,
    ensures
        0 <= headroom(alpha, floor) <= WHOLE,
        0 <= smoothstep(alpha) * smoothstep(headroom(alpha, floor)) <= WHOLE * WHOLE,
        0 <= trust(alpha, floor) <= WHOLE,
{
    let t = headroom(alpha, floor);
    lemma_smoothstep(alpha);
    lemma_smoothstep(t);
    let (a, b, w) = (smoothstep(alpha), smoothstep(t), WHOLE as int);
    assert(0 <= a * b <= w * w) by (nonlinear_arith)
        requires
            0 <= a <= w,
            0 <= b <= w,
    ;
    lemma_div_le(a * b, w, w);
}

/// How far an answer is believed is a share.
pub proof fn lemma_belief(a: Answer)
    requires
        all_light(a),
    ensures
        0 <= belief(a) <= WHOLE,
{
    lemma_shortfall(a.observed[0] as int, a.behind[0] as int);
    lemma_shortfall(a.observed[1] as int, a.behind[1] as int);
    lemma_shortfall(a.observed[2] as int, a.behind[2] as int);
    lemma_trust(
        a.share as int,
        most(
            shortfall(a.observed[0] as int, a.behind[0] as int),
            shortfall(a.observed[1] as int, a.behind[1] as int),
            shortfall(a.observed[2] as int, a.behind[2] as int),
        ),
    );
}

proof fn lemma_shortfall(observed: int, behind: int)
    requires
        0 <= observed,
        0 <= behind,
    ensures
        0 <= shortfall(observed, behind) <= WHOLE,
{
    if behind > observed {
        let gap = behind - observed;
        assert(0 <= gap * WHOLE <= behind * WHOLE) by (nonlinear_arith)
            requires
                0 <= gap <= behind,
        ;
        lemma_div_le(gap * WHOLE, behind, WHOLE as int);
    }
}

fn trust_share(alpha: u64, floor: u64) -> (r: u64)
    requires
        alpha <= WHOLE,
        floor <= WHOLE,
    ensures
        r == trust(alpha as int, floor as int),
        r <= WHOLE,
{
    proof {
        lemma_trust(alpha as int, floor as int);
    }
    let t: u64 = if alpha <= floor {
        0
    } else {
        let v: u64 = (20 * (alpha - floor)) / 3;
        if v < WHOLE { v } else { WHOLE }
    };
    let (a, b): (u64, u64) = (smooth(alpha), smooth(t));
    (((a as u128) * (b as u128)) / (WHOLE as u128)) as u64
}

/// A part of the way is no more than the way.
pub proof fn lemma_moved(from: int, d: int, m: int, part: int)
    requires
        0 < m,
        0 <= part <= WHOLE,
    ensures
        d >= 0 ==> from <= moved(from, d, m, part) && (moved(from, d, m, part) - from) * m <= d,
        d <= 0 ==> moved(from, d, m, part) <= from && (from - moved(from, d, m, part)) * m <= -d,
{
    let w = WHOLE as int;
    let e = magnitude(d);
    let q = (part * e) / (w * m);
    assert(0 <= part * e <= w * e) by (nonlinear_arith)
        requires
            0 <= part <= w,
            0 <= e,
    ;
    assert(0 < w * m) by (nonlinear_arith)
        requires
            0 < m,
            0 < w,
    ;
    assert(0 <= q && q * (w * m) <= part * e) by (nonlinear_arith)
        requires
            q == (part * e) / (w * m),
            0 < w * m,
            0 <= part * e,
    ;
    assert(q * m <= e) by (nonlinear_arith)
        requires
            q * (w * m) <= w * e,
            0 < w,
    ;
}

/// A channel of the solved colour stays near what was seen.
pub proof fn lemma_solved(a: Answer, k: int)
    requires
        all_light(a),
        0 <= k < 3,
    ensures
        0 <= way(a) <= WHOLE,
        a.front[k] - RECOVER_SLACK <= solved_light(a, k) || a.observed[k] - RECOVER_SLACK <= solved_light(a, k),
        solved_light(a, k) <= a.front[k] + RECOVER_SLACK || solved_light(a, k) <= a.observed[k] + RECOVER_SLACK,
{
    let (o, b, f, n) = (a.observed[k] as int, a.behind[k] as int, a.front[k] as int, a.share as int);
    let (d, m, w) = (pull(o, b, n), divisor(n), WHOLE as int);
    lemma_allowed(a.observed[0] as int, a.behind[0] as int, a.front[0] as int, n);
    lemma_allowed(a.observed[1] as int, a.behind[1] as int, a.front[1] as int, n);
    lemma_allowed(a.observed[2] as int, a.behind[2] as int, a.front[2] as int, n);
    let part = way(a);
    let v = allowed(o, b, f, n);
    assert(part <= v) by {
        assert(k == 0 || k == 1 || k == 2);
    }
    lemma_moved(o, d, m, part);
    if d != 0 {
        let e = magnitude(d);
        let r = room(o, f, d > 0);
        let q = (part * e) / (w * m);
        assert(part * e <= r * m * w) by (nonlinear_arith)
            requires
                part <= v,
                v <= (r * m * w) / e,
                0 < e,
                0 <= r * m * w,
        ;
        assert(q <= r) by (nonlinear_arith)
            requires
                part * e <= r * m * w,
                0 <= part * e,
                0 <= r,
                0 < m,
                0 < w,
                q == (part * e) / (w * m),
        ;
    }
}

/// The share of the way is a share.
proof fn lemma_allowed(o: int, b: int, f: int, share: int)
    requires
        0 <= share <= WHOLE,
    ensures
        0 <= allowed(o, b, f, share) <= WHOLE,
        0 <= room(o, f, pull(o, b, share) > 0) * divisor(share) * WHOLE,
{
    let d = pull(o, b, share);
    let (r, m, w) = (room(o, f, d > 0), divisor(share), WHOLE as int);
    assert(0 <= r * m * w) by (nonlinear_arith)
        requires
            0 <= r,
            0 <= m,
            0 <= w,
    ;
    if d != 0 {
        let e = magnitude(d);
        assert(0 <= (r * m * w) / e) by (nonlinear_arith)
            requires
                0 <= r * m * w,
                0 < e,
        ;
    }
}

fn solve(observed: u64, behind: u64, share: u64, part: u64) -> (r: i128)
    requires
        share <= WHOLE,
        observed <= LINEAR_UNIT,
        behind <= LINEAR_UNIT,
        part <= WHOLE,
    ensures
        r == moved(
            observed as int,
            pull(observed as int, behind as int, share as int),
            divisor(share as int),
            part as int,
        ),
        -68_719_476_736 * 21_474_836_480 <= r <= 68_719_476_736 * 21_474_836_481,
{
    let m: u64 = if 20 * share < WHOLE { WHOLE } else { 20 * share };
    let left: u64 = SHARE_PARTS - m;
    let up: bool = observed >= behind;
    let apart: u64 = if up { observed - behind } else { behind - observed };
    let ghost d = pull(observed as int, behind as int, share as int);
    proof {
        let (o, b, n) = (observed as int, behind as int, left as int);
        assert(d == if up { apart * n } else { -(apart * n) }) by (nonlinear_arith)
            requires
                d == (o - b) * n,
                apart == (if up { o - b } else { b - o }),
        ;
        assert(0 <= apart * n <= 68_719_476_736 * 21_474_836_480) by (nonlinear_arith)
            requires
                0 <= apart <= 68_719_476_736,
                0 <= n <= 21_474_836_480,
        ;
        assert(0 <= part * (apart * n) <= 1_073_741_824 * (68_719_476_736 * 21_474_836_480)) by (nonlinear_arith)
            requires
                0 <= part <= 1_073_741_824,
                0 <= apart * n <= 68_719_476_736 * 21_474_836_480,
        ;
        assert(part * 0 == 0);
        assert(WHOLE * m <= 1_073_741_824 * 21_474_836_480) by (nonlinear_arith)
            requires
                0 <= m <= 21_474_836_480,
                WHOLE == 1_073_741_824,
        ;
        lemma_moved(observed as int, d, m as int, part as int);
        let q = (part * (apart * n)) / (WHOLE * m);
        assert(0 <= q <= 68_719_476_736 * 21_474_836_480) by (nonlinear_arith)
            requires
                q * m <= apart * n,
                0 <= q,
                1 <= m,
                apart * n <= 68_719_476_736 * 21_474_836_480,
        ;
    }
    let q: u128 = ((part as u128) * ((apart as u128) * (left as u128))) / ((WHOLE as u128) * (m as u128));
    if up {
        observed as i128 + q as i128
    } else {
        observed as i128 - q as i128
    }
}

fn blend(front: u64, goal: i128, part: u64) -> (r: u64)
    requires
        front <= LINEAR_UNIT,
        part <= WHOLE,
        -68_719_476_736 * 21_474_836_480 <= goal <= 68_719_476_736 * 21_474_836_481,
    ensures
        r == visible(moved(front as int, goal - front, 1, part as int)),
        r <= LINEAR_UNIT,
{
    let ghost d = goal - front;
    let up: bool = goal >= front as i128;
    let apart: u128 = if up { (goal - front as i128) as u128 } else { (front as i128 - goal) as u128 };
    proof {
        assert(0 <= part * apart <= 1_073_741_824 * (68_719_476_736 * 21_474_836_482)) by (nonlinear_arith)
            requires
                0 <= part <= 1_073_741_824,
                0 <= apart <= 68_719_476_736 * 21_474_836_482,
        ;
        lemma_moved(front as int, d, 1, part as int);
    }
    let q: u128 = ((part as u128) * apart) / (WHOLE as u128);
    assert(q == (part * apart) / (WHOLE * 1));
    let v: i128 = if up { front as i128 + q as i128 } else { front as i128 - q as i128 };
    if v < 0 {
        0
    } else if v > LINEAR_UNIT as i128 {
        LINEAR_UNIT
    } else {
        v as u64
    }
}

/// Recovers the colour of the product at a pixel, in linear light.
pub fn recover_foreground(a: &Answer) -> (r: [u64; 3])
    requires
        all_light(*a),
    ensures
        forall|k: int| 0 <= k < 3 ==> #[trigger] r[k] == visible(recovered_light(*a, k)),
{
    assert(a.observed[0] <= LINEAR_UNIT && a.observed[1] <= LINEAR_UNIT && a.observed[2] <= LINEAR_UNIT);
    let (o, b, f): ([u64; 3], [u64; 3], [u64; 3]) = (a.observed, a.behind, a.front);
    let r0: u64 = allowed_share(o[0], b[0], f[0], a.share);
    let r1: u64 = allowed_share(o[1], b[1], f[1], a.share);
    let r2: u64 = allowed_share(o[2], b[2], f[2], a.share);
    let r01: u64 = if r0 < r1 { r0 } else { r1 };
    let part: u64 = if r01 < r2 { r01 } else { r2 };
    let s0: u64 = shortfall_share(o[0], b[0]);
    let s1: u64 = shortfall_share(o[1], b[1]);
    let s2: u64 = shortfall_share(o[2], b[2]);
    let s01: u64 = if s0 < s1 { s1 } else { s0 };
    let floor: u64 = if s01 < s2 { s2 } else { s01 };
    let believed: u64 = trust_share(a.share, floor);
    [
        blend(f[0], solve(o[0], b[0], a.share, part), believed),
        blend(f[1], solve(o[1], b[1], a.share, part), believed),
        blend(f[2], solve(o[2], b[2], a.share, part), believed),
    ]
}

/// A pixel in the recovered colour of an answer. Its alpha stays.
pub open spec fn recoloured(a: Answer, steps: Seq<u64>, was: [u8; 4], after: [u8; 4]) -> bool {
    &&& after[0] == tally(steps_taken(steps, visible(recovered_light(a, 0))))
    &&& after[1] == tally(steps_taken(steps, visible(recovered_light(a, 1))))
    &&& after[2] == tally(steps_taken(steps, visible(recovered_light(a, 2))))
    &&& after[3] == was[3]
}

/// What a pixel comes to by the first `n` of the answers: the colour of the last
/// one for it, or what it was.
pub open spec fn last_word(answers: Seq<Answer>, steps: Seq<u64>, n: int, x: int, y: int, was: [u8; 4], after: [u8; 4]) -> bool {
    ||| after == was && forall|j: int| 0 <= j < n ==> (#[trigger] answers[j]).x != x || answers[j].y != y
    ||| exists|j: int|
        {
            &&& 0 <= j < n
            &&& (#[trigger] answers[j]).x == x && answers[j].y == y
            &&& recoloured(answers[j], steps, was, after)
            &&& forall|i: int| j < i < n ==> (#[trigger] answers[i]).x != x || answers[i].y != y
        }
}

/// Writes the recovered colours into a picture. `steps` holds the 255 values of
/// linear light at which the next 8-bit value begins.
pub fn recover(image: &mut RgbaImage, answers: &[Answer], steps: &[u64])
    requires
        old(image).wf(),
        steps@.len() == 255,
        forall|j: int|
            0 <= j < answers@.len() ==> all_light(#[trigger] answers@[j]) && old(image).inside(
                answers@[j].x as int,
                answers@[j].y as int,
            ),
    ensures
        final(image).wf(),
        final(image).w() == old(image).w(),
        final(image).h() == old(image).h(),
        forall|x: int, y: int|
            old(image).inside(x, y) ==> last_word(
                answers@,
                steps@,
                answers@.len() as int,
                x,
                y,
                old(image).px(x, y),
                #[trigger] final(image).px(x, y),
            ),
{
    let ghost was = *image;
    let mut j: usize = 0;
    while j < answers.len()
        invariant
            image.wf(),
            image.w() == was.w(),
            image.h() == was.h(),
            steps@.len() == 255,
            j <= answers@.len(),
            forall|i: int|
                0 <= i < answers@.len() ==> all_light(#[trigger] answers@[i]) && was.inside(
                    answers@[i].x as int,
                    answers@[i].y as int,
                ),
            forall|x: int, y: int|
                was.inside(x, y) ==> last_word(
                    answers@,
                    steps@,
                    j as int,
                    x,
                    y,
                    was.px(x, y),
                    #[trigger] image.px(x, y),
                ) && image.px(x, y)[3] == was.px(x, y)[3],
        decreases answers@.len() - j,
    {
        let a: Answer = answers[j];
        let ghost had = *image;
        let c: [u64; 3] = recover_foreground(&a);
        let p: [u8; 4] = image.get_pixel(a.x, a.y);
        let q: [u8; 4] = [eight_bits(steps, c[0]), eight_bits(steps, c[1]), eight_bits(steps, c[2]), p[3]];
        image.put_pixel(a.x, a.y, q);
        proof {
            assert(recoloured(a, steps@, was.px(a.x as int, a.y as int), q));
            assert forall|x: int, y: int| was.inside(x, y) implies last_word(
                answers@,
                steps@,
                j + 1,
                x,
                y,
                was.px(x, y),
                #[trigger] image.px(x, y),
            ) && image.px(x, y)[3] == was.px(x, y)[3] by {
                let (w, h) = (was.w() as int, was.h() as int);
                lemma_at_bound(w, h, x, y);
                lemma_at_bound(w, h, a.x as int, a.y as int);
                if x == a.x && y == a.y {
                    assert(answers@[j as int].x == x);
                    assert(image.px(x, y) == q);
                } else {
                    if at(w, x, y) == at(w, a.x as int, a.y as int) {
                        lemma_at_distinct(w, x, y, a.x as int, a.y as int);
                    }
                    assert(image.px(x, y) == had.px(x, y));
                    assert(last_word(answers@, steps@, j as int, x, y, was.px(x, y), had.px(x, y)));
                }
            }
        }
        j += 1;
    }
}

} // verus!

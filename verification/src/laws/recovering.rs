//! Laws of recovered colours.
use vstd::prelude::*;

use crate::cutout::matte::{all_light, alpha_share, Answer, WHOLE};
use crate::cutout::field::steps_taken;
use crate::cutout::recover::{
    allowed, belief, divisor, headroom, last_word, lemma_belief, lemma_moved, lemma_solved, most, pull,
    recovered_light, room, shortfall, smoothstep, solved_light, way, RECOVER_SLACK,
};
use crate::tally::tally;

verus! {

/// A recovered colour stays near what was seen: no channel leaves the span between
/// the observed colour and the one in front by more than the slack.
pub proof fn law_a_recovered_colour_stays_near(a: Answer, k: int)
    requires
        all_light(a),
        0 <= k < 3,
    ensures
        a.front[k] - RECOVER_SLACK <= recovered_light(a, k) || a.observed[k] - RECOVER_SLACK <= recovered_light(a, k),
        recovered_light(a, k) <= a.front[k] + RECOVER_SLACK || recovered_light(a, k) <= a.observed[k] + RECOVER_SLACK,
{
    lemma_solved(a, k);
    lemma_belief(a);
    lemma_moved(a.front[k] as int, solved_light(a, k) - a.front[k], 1, belief(a));
}

/// A pixel with nothing of the background in it keeps its colour, wherever it is
/// at least as bright as what lies behind.
pub proof fn law_an_opaque_pixel_keeps_its_colour(a: Answer, k: int)
    requires
        all_light(a),
        a.share == WHOLE,
        forall|i: int| 0 <= i < 3 ==> #[trigger] a.observed[i] >= a.behind[i],
        0 <= k < 3,
    ensures
        recovered_light(a, k) == a.observed[k],
{
    lemma_belief(a);
    let (o, f) = (a.observed[k] as int, a.front[k] as int);
    assert(a.observed[0] >= a.behind[0] && a.observed[1] >= a.behind[1] && a.observed[2] >= a.behind[2]);
    let w = WHOLE as int;
    assert(w * w * (3 * w - 2 * w) == w * w * w) by (nonlinear_arith);
    assert((w * w * w) / (w * w) == w) by (nonlinear_arith)
        requires
            w == 1_073_741_824,
    ;
    assert((w * w) / w == w) by (nonlinear_arith)
        requires
            w == 1_073_741_824,
    ;
    assert(belief(a) == w);
    let b = a.behind[k] as int;
    assert((o - b) * 0 == 0);
    lemma_solved(a, k);
    lemma_moved(o, 0, 20 * w, way(a));
    assert(solved_light(a, k) == o);
    let d = if o >= f { o - f } else { f - o };
    assert((w * d) / (w * 1) == d) by (nonlinear_arith)
        requires
            w == 1_073_741_824,
    ;
}

/// A pixel that is not believed takes the colour in front.
pub proof fn law_without_belief_the_front_shows(a: Answer, k: int)
    requires
        all_light(a),
        belief(a) == 0,
        0 <= k < 3,
    ensures
        recovered_light(a, k) == a.front[k],
{
    let d = solved_light(a, k) - a.front[k];
    assert(0 * d == 0 && 0 * -d == 0) by (nonlinear_arith);
}

/// Full alpha is a whole share, and no alpha is none.
pub proof fn law_alpha_and_share_agree_at_the_ends()
    ensures
        alpha_share(255) == WHOLE,
        alpha_share(0) == 0,
{
}

/// Where no channel is held back, the solved colour mixes with what lies behind into
/// what was seen, to within what rounding loses.
pub proof fn law_the_solved_colour_mixes_into_what_was_seen(a: Answer, k: int)
    requires
        all_light(a),
        0 <= k < 3,
        20 * a.share >= WHOLE,
        way(a) == WHOLE,
    ensures
        ({
            let mixed = a.share * solved_light(a, k) + (WHOLE - a.share) * a.behind[k];
            mixed - a.share < WHOLE * a.observed[k] < mixed + a.share
        }),
{
    let (o, b, s, w) = (a.observed[k] as int, a.behind[k] as int, a.share as int, WHOLE as int);
    let (m, parts) = (20 * s, 20 * w);
    let d = (o - b) * (parts - m);
    let c = if d >= 0 {
        d
    } else {
        -d
    };
    let q = (w * c) / (w * m);
    assert(q * m <= c < (q + 1) * m) by (nonlinear_arith)
        requires
            q == (w * c) / (w * m),
            w == 1_073_741_824,
            0 < m,
            0 <= c,
    ;
    let f = solved_light(a, k);
    assert(f == if d >= 0 {
        o + q
    } else {
        o - q
    });
    let e = f - o;
    assert(d - m < e * m < d + m) by (nonlinear_arith)
        requires
            q * m <= c < (q + 1) * m,
            (e == q && d == c) || (e == -q && d == -c),
    ;
    assert(e * m == 20 * (e * s)) by (nonlinear_arith)
        requires
            m == 20 * s,
    ;
    assert(d == 20 * ((o - b) * (w - s))) by (nonlinear_arith)
        requires
            d == (o - b) * (parts - m),
            m == 20 * s,
            parts == 20 * w,
    ;
    assert((o - b) * (w - s) - s < e * s < (o - b) * (w - s) + s);
    assert(s * f + (w - s) * b - w * o == e * s - (o - b) * (w - s)) by (nonlinear_arith)
        requires
            e == f - o,
    ;
}

/// The 8-bit value of a light is the number of steps it has taken: it has taken the
/// last of them and not the next.
pub proof fn law_a_light_has_the_steps_it_has_taken(steps: Seq<u64>, v: int)
    requires
        forall|i: int, j: int| 0 <= i <= j < steps.len() ==> #[trigger] steps[i] <= #[trigger] steps[j],
    ensures
        ({
            let n = tally(steps_taken(steps, v)) as int;
            &&& 0 <= n <= steps.len()
            &&& n > 0 ==> steps[n - 1] <= v
            &&& n < steps.len() ==> v < steps[n]
        }),
    decreases steps.len(),
{
    let taken = steps_taken(steps, v);
    if steps.len() > 0 {
        let fewer = steps.drop_last();
        let last = steps.len() - 1;
        law_a_light_has_the_steps_it_has_taken(fewer, v);
        assert(taken.drop_last() =~= steps_taken(fewer, v));
        let m = tally(steps_taken(fewer, v)) as int;
        if v >= steps[last] && m < fewer.len() {
            assert(fewer[m] == steps[m] && steps[m] <= steps[last]);
        }
        if m > 0 {
            assert(fewer[m - 1] == steps[m - 1]);
        }
        if m < fewer.len() {
            assert(fewer[m] == steps[m]);
        }
    }
}

/// A recovered pixel keeps its opacity, and a pixel that no answer is for keeps all.
pub proof fn law_only_answered_pixels_are_recoloured(
    answers: Seq<Answer>,
    steps: Seq<u64>,
    x: int,
    y: int,
    was: [u8; 4],
    after: [u8; 4],
)
    requires
        last_word(answers, steps, answers.len() as int, x, y, was, after),
    ensures
        after[3] == was[3],
        (forall|j: int| 0 <= j < answers.len() ==> (#[trigger] answers[j]).x != x || answers[j].y != y) ==> after == was,
{
}

/// How far the solved colour is believed rises with the share: nothing without one,
/// all of it with a whole, where no channel wants light that is not there.
pub proof fn law_belief_goes_from_nothing_to_all(a: Answer)
    requires
        all_light(a),
    ensures
        a.share == 0 ==> belief(a) == 0,
        a.share == WHOLE && (forall|k: int| 0 <= k < 3 ==> #[trigger] a.observed[k] >= a.behind[k]) ==> belief(a)
            == WHOLE,
        0 <= belief(a) <= WHOLE,
{
    lemma_belief(a);
    let w = WHOLE as int;
    assert((w * w) / w == w && (0 * w) / w == 0) by (nonlinear_arith)
        requires
            w == 1_073_741_824,
    ;
    if a.share == 0 {
        let h = smoothstep(headroom(0, most(
            shortfall(a.observed[0] as int, a.behind[0] as int),
            shortfall(a.observed[1] as int, a.behind[1] as int),
            shortfall(a.observed[2] as int, a.behind[2] as int),
        )));
        assert(smoothstep(0) == 0) by {
            assert(0 * 0 * (3 * w - 0) == 0);
            assert(0int / (w * w) == 0) by (nonlinear_arith)
                requires
                    w == 1_073_741_824,
            ;
        }
        assert((0 * h) / w == 0) by (nonlinear_arith)
            requires
                w == 1_073_741_824,
        ;
    }
    if a.share == WHOLE && (forall|k: int| 0 <= k < 3 ==> #[trigger] a.observed[k] >= a.behind[k]) {
        assert(a.observed[0] >= a.behind[0] && a.observed[1] >= a.behind[1] && a.observed[2] >= a.behind[2]);
        assert(w * w * (3 * w - 2 * w) == w * w * w) by (nonlinear_arith);
        assert((w * w * w) / (w * w) == w) by (nonlinear_arith)
            requires
                w == 1_073_741_824,
        ;
    }
}

/// All channels go the same share of their way, and it is the one that the most held
/// back of them may go: the hue stays.
pub proof fn law_the_most_held_back_channel_decides(a: Answer, k: int)
    requires
        0 <= k < 3,
    ensures
        ({
            let may = |j: int|
                allowed(a.observed[j] as int, a.behind[j] as int, a.front[j] as int, a.share as int);
            &&& way(a) <= may(k)
            &&& way(a) == may(0) || way(a) == may(1) || way(a) == may(2)
        }),
{
}

/// A step that starts and ends level: nothing at nothing, all at all, half at half.
pub proof fn law_a_smooth_step_is_level_at_both_ends()
    ensures
        smoothstep(0) == 0,
        smoothstep(WHOLE as int) == WHOLE,
        smoothstep(WHOLE as int / 2) == WHOLE / 2,
{
    let w = WHOLE as int;
    assert((0 * 0 * (3 * w - 2 * 0)) / (w * w) == 0) by (nonlinear_arith)
        requires
            w == 1_073_741_824,
    ;
    assert((w * w * (3 * w - 2 * w)) / (w * w) == w) by (nonlinear_arith)
        requires
            w == 1_073_741_824,
    ;
    let h = 536_870_912int;
    assert(w / 2 == h);
    assert((h * h * (3 * w - 2 * h)) / (w * w) == h) by (nonlinear_arith)
        requires
            w == 1_073_741_824,
            h == 536_870_912,
    ;
}

/// A channel may go past the colour in front by five hundredths of full light, and no
/// farther: where it lies ahead, as far as that and the slack; where it does not, the
/// slack alone.
pub proof fn law_a_channel_may_pass_the_front_by_the_slack(observed: int, front: int)
    ensures
        room(observed, front, true) >= 3_435_973_837,
        room(observed, front, false) >= 3_435_973_837,
        front >= observed ==> observed + room(observed, front, true) == front + 3_435_973_837,
        front <= observed ==> observed - room(observed, front, false) == front - 3_435_973_837,
        front <= observed ==> room(observed, front, true) == 3_435_973_837,
        front >= observed ==> room(observed, front, false) == 3_435_973_837,
{
}

/// A mixture is divided by its share, and by no less than a twentieth.
pub proof fn law_a_small_share_counts_as_a_twentieth(share: int)
    requires
        0 <= share,
    ensures
        divisor(share) >= 20 * share,
        divisor(share) >= 1_073_741_824,
        divisor(share) == 20 * share || divisor(share) == 1_073_741_824,
{
}

/// The share of its way that a channel may go takes it no farther than its room, and
/// one part more would, unless it may go all of the way.
pub proof fn law_a_channel_goes_as_far_as_its_room(observed: int, behind: int, front: int, share: int)
    requires
        0 <= share <= WHOLE,
    ensures
        ({
            let d = (observed - behind) * (21_474_836_480 - divisor(share));
            let far = if d < 0 {
                -d
            } else {
                d
            };
            let most = room(observed, front, d > 0) * divisor(share) * 1_073_741_824;
            let part = allowed(observed, behind, front, share);
            &&& part <= 1_073_741_824
            &&& part * far <= most
            &&& part == 1_073_741_824 || most < (part + 1) * far
        }),
{
    let d = pull(observed, behind, share);
    let far = if d < 0 {
        -d
    } else {
        d
    };
    let (r, v, one) = (room(observed, front, d > 0), divisor(share), 1_073_741_824int);
    let most = r * v * one;
    assert(0 < most) by (nonlinear_arith)
        requires
            most == r * v * one,
            0 < r,
            0 < v,
            0 < one,
    ;
    let part = allowed(observed, behind, front, share);
    if d == 0 {
        assert(part * far == 0) by (nonlinear_arith)
            requires
                far == 0,
        ;
    } else {
        let q = most / far;
        assert(q * far <= most < (q + 1) * far) by (nonlinear_arith)
            requires
                q == most / far,
                0 < far,
        ;
        assert(part * far <= q * far) by (nonlinear_arith)
            requires
                part <= q,
                0 < far,
        ;
    }
}

/// The recovered colour lies between that in front and the solved one, as far along as
/// this is believed, to within what rounding loses.
pub proof fn law_belief_decides_between_front_and_solved(a: Answer, k: int)
    requires
        all_light(a),
        0 <= k < 3,
    ensures
        ({
            let (f, s, r) = (a.front[k] as int, solved_light(a, k), recovered_light(a, k));
            &&& belief(a) * (s - f) - WHOLE < WHOLE * (r - f) < belief(a) * (s - f) + WHOLE
            &&& f <= s ==> f <= r <= s
            &&& s <= f ==> s <= r <= f
        }),
{
    lemma_belief(a);
    let (f, s, r, b, w) = (a.front[k] as int, solved_light(a, k), recovered_light(a, k), belief(a), WHOLE as int);
    let d = s - f;
    let far = if d < 0 {
        -d
    } else {
        d
    };
    let q = (b * far) / (w * 1);
    assert(q * w <= b * far < (q + 1) * w && 0 <= q <= far) by (nonlinear_arith)
        requires
            q == (b * far) / w,
            w == 1_073_741_824,
            0 <= b <= w,
            0 <= far,
    ;
    assert(r - f == if d >= 0 {
        q
    } else {
        -q
    });
    assert(w * q == q * w && w * (-q) == -(q * w)) by (nonlinear_arith);
    assert((q + 1) * w == q * w + w) by (nonlinear_arith);
    if d < 0 {
        assert(b * d == -(b * far)) by (nonlinear_arith)
            requires
                far == -d,
        ;
    }
}

/// A channel darker than what lies behind tells the least share that can be: the part
/// of the light behind that is missing, rounded down.
pub proof fn law_missing_light_tells_the_least_share(observed: int, behind: int)
    requires
        0 <= observed,
        0 <= behind,
    ensures
        observed >= behind ==> shortfall(observed, behind) == 0,
        observed < behind ==> shortfall(observed, behind) * behind <= (behind - observed) * WHOLE < (shortfall(
            observed,
            behind,
        ) + 1) * behind,
{
    if observed < behind {
        let (n, q) = ((behind - observed) * WHOLE, shortfall(observed, behind));
        assert(q * behind <= n < (q + 1) * behind) by (nonlinear_arith)
            requires
                q == n / behind,
                0 < behind,
        ;
    }
}

/// The share is believed in full from fifteen hundredths above that least one on, and
/// not at all below it.
pub proof fn law_belief_needs_headroom(alpha: int, floor: int)
    ensures
        alpha <= floor ==> headroom(alpha, floor) == 0,
        20 * (alpha - floor) >= 3 * WHOLE ==> headroom(alpha, floor) == WHOLE,
        0 < 20 * (alpha - floor) < 3 * WHOLE ==> 3 * headroom(alpha, floor) <= 20 * (alpha - floor) < 3 * headroom(
            alpha,
            floor,
        ) + 3,
{
}

} // verus!

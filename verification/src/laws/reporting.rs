//! Laws of the warnings.
use vstd::prelude::*;

use crate::cutout::background::BackgroundEstimate;
use crate::cutout::diagnostics::Diagnostics;
use crate::cutout::mask::MaskStats;
use crate::cutout::pipeline::is_threshold;
use crate::cutout::report::{
    cut_happened, halo_high, if_so, is_raised, misread_as_cropped, rim_high, rough_high, strength_of_tenths,
    too_large, too_small, warnings_of, DEFAULT_EDGE_THRESHOLD,
};
use crate::cutout::subject::{Confidence, Span, SubjectHint};
use crate::warning::{bbox_text, decimal_text, four_places, span_ok, Warning, WarningCode};

verus! {

/// Some warning has the code.
pub open spec fn warns(ws: Seq<Warning>, code: WarningCode) -> bool {
    exists|i: int| 0 <= i < ws.len() && (#[trigger] ws[i]).code_of() == code
}

/// A list put together warns of what its parts warn of.
proof fn lemma_together(a: Seq<Warning>, b: Seq<Warning>, code: WarningCode)
    ensures
        warns(a + b, code) <==> warns(a, code) || warns(b, code),
{
    let c = a + b;
    if warns(a, code) {
        let i = choose|i: int| 0 <= i < a.len() && (#[trigger] a[i]).code_of() == code;
        assert(c[i] == a[i]);
    }
    if warns(b, code) {
        let i = choose|i: int| 0 <= i < b.len() && (#[trigger] b[i]).code_of() == code;
        assert(c[a.len() + i] == b[i]);
    }
    if warns(c, code) {
        let i = choose|i: int| 0 <= i < c.len() && (#[trigger] c[i]).code_of() == code;
        if i < a.len() {
            assert(a[i] == c[i]);
        } else {
            assert(b[i - a.len()] == c[i]);
        }
    }
}

proof fn lemma_one(b: bool, w: Warning, code: WarningCode)
    ensures
        warns(if_so(b, w), code) <==> b && w.code_of() == code,
{
    if b {
        assert(if_so(b, w)[0] == w);
    }
}

/// What each warning rests on.
pub proof fn law_each_warning_has_its_reason(
    background: &BackgroundEstimate,
    stats: &MaskStats,
    separability: Option<u64>,
    diagnostics: &Diagnostics,
    subject: Option<SubjectHint>,
    bbox_given: bool,
)
    requires
        stats.total <= u64::MAX,
        stats.foreground <= u64::MAX,
    ensures
        ({
            let ws = warnings_of(background, stats, separability, diagnostics, subject, bbox_given);
            let (f, t) = (stats.foreground as int, stats.total as int);
            &&& warns(ws, WarningCode::LowUniformity) <==> !background.uniform()
            &&& warns(ws, WarningCode::ForegroundTooSmall) <==> too_small(f, t)
            &&& warns(ws, WarningCode::ForegroundTooLarge) <==> too_large(f, t)
            &&& warns(ws, WarningCode::BboxRecommended) <==> misread_as_cropped(
                background,
                stats,
                subject,
                bbox_given,
            )
            &&& warns(ws, WarningCode::SubjectTouchesEdge) <==> stats.touches_edge && !misread_as_cropped(
                background,
                stats,
                subject,
                bbox_given,
            )
            &&& warns(ws, WarningCode::NotSeparable) <==> cut_happened(f, t) && (separability matches Some(v) && v
                < background.delta_e.p50)
        }),
{
    let ws = warnings_of(background, stats, separability, diagnostics, subject, bbox_given);
    lemma_reason(background, stats, separability, diagnostics, subject, bbox_given, WarningCode::LowUniformity);
    lemma_reason(background, stats, separability, diagnostics, subject, bbox_given, WarningCode::ForegroundTooSmall);
    lemma_reason(background, stats, separability, diagnostics, subject, bbox_given, WarningCode::ForegroundTooLarge);
    lemma_reason(background, stats, separability, diagnostics, subject, bbox_given, WarningCode::BboxRecommended);
    lemma_reason(background, stats, separability, diagnostics, subject, bbox_given, WarningCode::SubjectTouchesEdge);
    lemma_reason(background, stats, separability, diagnostics, subject, bbox_given, WarningCode::NotSeparable);
}

proof fn lemma_reason(
    background: &BackgroundEstimate,
    stats: &MaskStats,
    separability: Option<u64>,
    diagnostics: &Diagnostics,
    subject: Option<SubjectHint>,
    bbox_given: bool,
    code: WarningCode,
)
    requires
        stats.total <= u64::MAX,
        stats.foreground <= u64::MAX,
    ensures
        warns(warnings_of(background, stats, separability, diagnostics, subject, bbox_given), code) <==> {
            ||| code == WarningCode::LowUniformity && !background.uniform()
            ||| code == WarningCode::ForegroundTooSmall && too_small(stats.foreground as int, stats.total as int)
            ||| code == WarningCode::ForegroundTooLarge && too_large(stats.foreground as int, stats.total as int)
            ||| code == WarningCode::BboxRecommended && misread_as_cropped(background, stats, subject, bbox_given)
            ||| code == WarningCode::SubjectTouchesEdge && stats.touches_edge && !misread_as_cropped(
                background,
                stats,
                subject,
                bbox_given,
            )
            ||| code == WarningCode::HaloRemains && (diagnostics.halo_ratio matches Some(s)
                && halo_high(s))
            ||| code == WarningCode::ContourRough && (diagnostics.contour_roughness matches Some(r)
                && rough_high(r))
            ||| code == WarningCode::RimContaminated && (diagnostics.rim_contamination matches Some(s)
                && rim_high(s))
            ||| code == WarningCode::NotSeparable && cut_happened(stats.foreground as int, stats.total as int) && (
            separability matches Some(v) && v < background.delta_e.p50)
        },
{
    let (foreground, total) = (stats.foreground as u64, stats.total as u64);
    let halo = diagnostics.halo_ratio matches Some(s) && halo_high(s);
    let b1 = !background.uniform();
    let w1 = Warning::LowUniformity { within: background.within, samples: background.samples };
    let b2 = too_small(foreground as int, total as int);
    let w2 = Warning::ForegroundTooSmall { foreground, total };
    let b3 = too_large(foreground as int, total as int);
    let w3 = Warning::ForegroundTooLarge { foreground, total };
    let b4 = misread_as_cropped(background, stats, subject, bbox_given);
    let w4 = Warning::BboxRecommended {
        across: subject.unwrap().across,
        down: subject.unwrap().down,
        foreground,
        total,
    };
    let b5 = stats.touches_edge && !b4;
    let w5 = Warning::SubjectTouchesEdge;
    let w6 = Warning::HaloRemains { halo: diagnostics.halo_ratio.unwrap() };
    let b7 = diagnostics.contour_roughness matches Some(r) && rough_high(r);
    let w7 = Warning::ContourRough { roughness: diagnostics.contour_roughness.unwrap() };
    let b8 = diagnostics.rim_contamination matches Some(s) && rim_high(s);
    let w8 = Warning::RimContaminated { rim: diagnostics.rim_contamination.unwrap(), tolerance_helps: halo };
    let b9 = cut_happened(foreground as int, total as int) && (separability matches Some(v) && v
        < background.delta_e.p50);
    let w9 = Warning::NotSeparable { separability: separability.unwrap(), spread: background.delta_e.p50 };
    let s1 = if_so(b1, w1);
    let s2 = s1 + if_so(b2, w2);
    let s3 = s2 + if_so(b3, w3);
    let s4 = s3 + if_so(b4, w4);
    let s5 = s4 + if_so(b5, w5);
    let s6 = s5 + if_so(halo, w6);
    let s7 = s6 + if_so(b7, w7);
    let s8 = s7 + if_so(b8, w8);
    lemma_one(b1, w1, code);
    lemma_one(b2, w2, code);
    lemma_one(b3, w3, code);
    lemma_one(b4, w4, code);
    lemma_one(b5, w5, code);
    lemma_one(halo, w6, code);
    lemma_one(b7, w7, code);
    lemma_one(b8, w8, code);
    lemma_one(b9, w9, code);
    lemma_together(s1, if_so(b2, w2), code);
    lemma_together(s2, if_so(b3, w3), code);
    lemma_together(s3, if_so(b4, w4), code);
    lemma_together(s4, if_so(b5, w5), code);
    lemma_together(s5, if_so(halo, w6), code);
    lemma_together(s6, if_so(b7, w7), code);
    lemma_together(s7, if_so(b8, w8), code);
    lemma_together(s8, if_so(b9, w9), code);
}

/// Foreground at the border is read in one way, never in both.
pub proof fn law_a_crop_and_a_box_are_not_both_reported(
    background: &BackgroundEstimate,
    stats: &MaskStats,
    separability: Option<u64>,
    diagnostics: &Diagnostics,
    subject: Option<SubjectHint>,
    bbox_given: bool,
)
    requires
        stats.total <= u64::MAX,
        stats.foreground <= u64::MAX,
    ensures
        ({
            let ws = warnings_of(background, stats, separability, diagnostics, subject, bbox_given);
            !(warns(ws, WarningCode::BboxRecommended) && warns(ws, WarningCode::SubjectTouchesEdge))
        }),
        ({
            let ws = warnings_of(background, stats, separability, diagnostics, subject, bbox_given);
            (warns(ws, WarningCode::BboxRecommended) || warns(ws, WarningCode::SubjectTouchesEdge))
                <==> stats.touches_edge
        }),
{
    law_each_warning_has_its_reason(background, stats, separability, diagnostics, subject, bbox_given);
}

/// A box is recommended only for a product that was found for certain.
pub proof fn law_no_box_is_recommended_on_low_confidence(
    background: &BackgroundEstimate,
    stats: &MaskStats,
    separability: Option<u64>,
    diagnostics: &Diagnostics,
    subject: Option<SubjectHint>,
    bbox_given: bool,
)
    requires
        stats.total <= u64::MAX,
        stats.foreground <= u64::MAX,
        subject matches Some(s) ==> s.confidence == Confidence::Low,
    ensures
        !warns(
            warnings_of(background, stats, separability, diagnostics, subject, bbox_given),
            WarningCode::BboxRecommended,
        ),
{
    law_each_warning_has_its_reason(background, stats, separability, diagnostics, subject, bbox_given);
}

/// That tuning is hopeless is never said while the cutout itself has failed: the
/// advice would contradict that of the other warning.
pub proof fn law_hopelessness_waits_for_a_cut(
    background: &BackgroundEstimate,
    stats: &MaskStats,
    separability: Option<u64>,
    diagnostics: &Diagnostics,
    subject: Option<SubjectHint>,
    bbox_given: bool,
)
    requires
        stats.total <= u64::MAX,
        stats.foreground <= u64::MAX,
    ensures
        ({
            let ws = warnings_of(background, stats, separability, diagnostics, subject, bbox_given);
            warns(ws, WarningCode::NotSeparable) ==> !warns(ws, WarningCode::ForegroundTooSmall) && !warns(
                ws,
                WarningCode::ForegroundTooLarge,
            )
        }),
        !(too_small(stats.foreground as int, stats.total as int) && too_large(
            stats.foreground as int,
            stats.total as int,
        )),
{
    law_each_warning_has_its_reason(background, stats, separability, diagnostics, subject, bbox_given);
}

/// Left to itself, the threshold is never below the default, and it is above it
/// exactly when that is reported.
pub proof fn law_the_threshold_is_only_raised(p50: u64, p90: u64, halves_up: bool, v: u64, raised: Option<Warning>)
    requires
        is_threshold(None, p50, p90, halves_up, v, raised),
    ensures
        v >= DEFAULT_EDGE_THRESHOLD,
        v > DEFAULT_EDGE_THRESHOLD <==> raised is Some,
{
    if p50 >= DEFAULT_EDGE_THRESHOLD {
        let tenths = choose|tenths: u32| #[trigger]
            is_raised(p90, halves_up, tenths as int) && if tenths <= 80 {
                v == DEFAULT_EDGE_THRESHOLD && raised is None
            } else {
                v == strength_of_tenths(tenths as int) && raised == Some(
                    Warning::EdgeThresholdRaised { tenths, p50, p90 },
                )
            };
        if tenths > 80 {
            let t = tenths as int;
            assert(t * t >= 81 * 81) by (nonlinear_arith)
                requires
                    t >= 81,
            ;
        }
    }
}

/// A threshold that was asked for is kept to, and nothing is said of it.
pub proof fn law_a_given_threshold_stands(
    asked: u64,
    p50: u64,
    p90: u64,
    halves_up: bool,
    v: u64,
    raised: Option<Warning>,
)
    requires
        is_threshold(Some(asked), p50, p90, halves_up, v, raised),
    ensures
        v == asked,
        raised is None,
{
}

/// The place of a warning in the order of the report.
pub open spec fn turn_of(w: Warning) -> int {
    match w {
        Warning::LowUniformity { .. } => 1,
        Warning::ForegroundTooSmall { .. } => 2,
        Warning::ForegroundTooLarge { .. } => 3,
        Warning::BboxRecommended { .. } => 4,
        Warning::SubjectTouchesEdge => 5,
        Warning::HaloRemains { .. } => 6,
        Warning::ContourRough { .. } => 7,
        Warning::RimContaminated { .. } => 8,
        Warning::NotSeparable { .. } => 9,
        _ => 0,
    }
}

/// The warnings come in their order, each once at most, and none comes after `n`.
spec fn in_turn(ws: Seq<Warning>, n: int) -> bool {
    &&& forall|i: int| 0 <= i < ws.len() ==> 0 < turn_of(#[trigger] ws[i]) <= n
    &&& forall|i: int, j: int|
        0 <= i < j < ws.len() ==> turn_of(#[trigger] ws[i]) < turn_of(#[trigger] ws[j])
}

proof fn lemma_next_turn(ws: Seq<Warning>, n: int, b: bool, w: Warning)
    requires
        in_turn(ws, n),
        0 <= n,
        turn_of(w) == n + 1,
    ensures
        in_turn(ws + if_so(b, w), n + 1),
{
}

/// A warning is given just where the numbers ask for it, with the numbers that asked
/// for it; the warnings come in a fixed order, each once at most.
///
/// The border is of one colour if at least nine tenths of its samples are. Less than
/// a hundredth of foreground is too little and more than 99 hundredths too much.
/// Foreground at the border means that a box is wanted where none was given, the
/// border is not of one colour and the product was found for certain, and else that
/// the product is cut off. A tenth of the boundary may be a halo and a fiftieth of the
/// rim background; the contour may stray by 0.16 pixels at a thousand. Where there is
/// some of both, product and background are not told apart if they are nearer to each
/// other than the border is to itself.
#[verifier::rlimit(60)]
pub proof fn law_warnings_rest_on_numbers(
    background: &BackgroundEstimate,
    stats: &MaskStats,
    separability: Option<u64>,
    diagnostics: &Diagnostics,
    subject: Option<SubjectHint>,
    bbox_given: bool,
    w: Warning,
)
    requires
        stats.total <= u64::MAX,
        stats.foreground <= u64::MAX,
    ensures
        ({
            let ws = warnings_of(background, stats, separability, diagnostics, subject, bbox_given);
            let (f, t) = (stats.foreground as int, stats.total as int);
            let plain = background.samples > 0 && 10 * background.within >= 9 * background.samples;
            let boxed = stats.touches_edge && !bbox_given && !plain && (subject matches Some(s) && s.confidence
                == Confidence::High);
            let halo = diagnostics.halo_ratio matches Some(s) && 10 * s.part > s.whole;
            &&& ws.contains(w) <==> match w {
                Warning::LowUniformity { within, samples } => !plain && within == background.within && samples
                    == background.samples,
                Warning::ForegroundTooSmall { foreground, total } => (t == 0 || 100 * f < t) && foreground == f && total
                    == t,
                Warning::ForegroundTooLarge { foreground, total } => t > 0 && 100 * f > 99 * t && foreground == f
                    && total == t,
                Warning::BboxRecommended { across, down, foreground, total } => boxed && across
                    == subject.unwrap().across && down == subject.unwrap().down && foreground == f && total == t,
                Warning::SubjectTouchesEdge => stats.touches_edge && !boxed,
                Warning::HaloRemains { halo: h } => halo && diagnostics.halo_ratio == Some(h),
                Warning::ContourRough { roughness } => diagnostics.contour_roughness == Some(roughness) && 100_000
                    * roughness.thirds > 48 * (roughness.pixels * roughness.scale),
                Warning::RimContaminated { rim, tolerance_helps } => diagnostics.rim_contamination == Some(rim) && 50
                    * rim.part > rim.whole && tolerance_helps == halo,
                Warning::NotSeparable { separability: v, spread } => t > 0 && t < 100 * f && 100 * f < 99 * t
                    && separability == Some(v) && spread == background.delta_e.p50 && v < spread,
                _ => false,
            }
            &&& forall|i: int, j: int|
                0 <= i < j < ws.len() ==> turn_of(#[trigger] ws[i]) < turn_of(#[trigger] ws[j])
        }),
{
    let (foreground, total) = (stats.foreground as u64, stats.total as u64);
    let halo = diagnostics.halo_ratio matches Some(s) && halo_high(s);
    let b1 = !background.uniform();
    let w1 = Warning::LowUniformity { within: background.within, samples: background.samples };
    let b2 = too_small(foreground as int, total as int);
    let w2 = Warning::ForegroundTooSmall { foreground, total };
    let b3 = too_large(foreground as int, total as int);
    let w3 = Warning::ForegroundTooLarge { foreground, total };
    let b4 = misread_as_cropped(background, stats, subject, bbox_given);
    let w4 = Warning::BboxRecommended {
        across: subject.unwrap().across,
        down: subject.unwrap().down,
        foreground,
        total,
    };
    let b5 = stats.touches_edge && !b4;
    let w5 = Warning::SubjectTouchesEdge;
    let w6 = Warning::HaloRemains { halo: diagnostics.halo_ratio.unwrap() };
    let b7 = diagnostics.contour_roughness matches Some(r) && rough_high(r);
    let w7 = Warning::ContourRough { roughness: diagnostics.contour_roughness.unwrap() };
    let b8 = diagnostics.rim_contamination matches Some(s) && rim_high(s);
    let w8 = Warning::RimContaminated { rim: diagnostics.rim_contamination.unwrap(), tolerance_helps: halo };
    let b9 = cut_happened(foreground as int, total as int) && (separability matches Some(v) && v
        < background.delta_e.p50);
    let w9 = Warning::NotSeparable { separability: separability.unwrap(), spread: background.delta_e.p50 };
    let s1 = if_so(b1, w1);
    let s2 = s1 + if_so(b2, w2);
    let s3 = s2 + if_so(b3, w3);
    let s4 = s3 + if_so(b4, w4);
    let s5 = s4 + if_so(b5, w5);
    let s6 = s5 + if_so(halo, w6);
    let s7 = s6 + if_so(b7, w7);
    let s8 = s7 + if_so(b8, w8);
    let s9 = s8 + if_so(b9, w9);
    assert(s9 == warnings_of(background, stats, separability, diagnostics, subject, bbox_given));
    assert(Seq::<Warning>::empty() + if_so(b1, w1) =~= s1);
    lemma_next_turn(Seq::empty(), 0, b1, w1);
    lemma_next_turn(s1, 1, b2, w2);
    lemma_next_turn(s2, 2, b3, w3);
    lemma_next_turn(s3, 3, b4, w4);
    lemma_next_turn(s4, 4, b5, w5);
    lemma_next_turn(s5, 5, halo, w6);
    lemma_next_turn(s6, 6, b7, w7);
    lemma_next_turn(s7, 7, b8, w8);
    lemma_next_turn(s8, 8, b9, w9);
    lemma_listed(Seq::empty(), b1, w1, w);
    lemma_listed(s1, b2, w2, w);
    lemma_listed(s2, b3, w3, w);
    lemma_listed(s3, b4, w4, w);
    lemma_listed(s4, b5, w5, w);
    lemma_listed(s5, halo, w6, w);
    lemma_listed(s6, b7, w7, w);
    lemma_listed(s7, b8, w8, w);
    lemma_listed(s8, b9, w9, w);
    assert(s9.contains(w) <==> (b1 && w == w1) || (b2 && w == w2) || (b3 && w == w3) || (b4 && w == w4) || (b5 && w == w5)
        || (halo && w == w6) || (b7 && w == w7) || (b8 && w == w8) || (b9 && w == w9));
    match w {
        Warning::LowUniformity { within, samples } => {
            assert(s9.contains(w) <==> b1 && w == w1);
        },
        Warning::ForegroundTooSmall { foreground, total } => {
            assert(s9.contains(w) <==> b2 && w == w2);
        },
        Warning::ForegroundTooLarge { foreground, total } => {
            assert(s9.contains(w) <==> b3 && w == w3);
        },
        Warning::BboxRecommended { across, down, foreground, total } => {
            assert(s9.contains(w) <==> b4 && w == w4);
        },
        Warning::SubjectTouchesEdge => {
            assert(s9.contains(w) <==> b5);
        },
        Warning::HaloRemains { halo: h } => {
            assert(s9.contains(w) <==> halo && w == w6);
        },
        Warning::ContourRough { roughness } => {
            assert(s9.contains(w) <==> b7 && w == w7);
            let (a, b) = (roughness.thirds as int, roughness.pixels * roughness.scale);
            assert(rough_high(roughness) <==> 6250 * a > 3 * b);
        },
        Warning::RimContaminated { rim, tolerance_helps } => {
            assert(s9.contains(w) <==> b8 && w == w8);
        },
        Warning::NotSeparable { separability: v, spread } => {
            assert(s9.contains(w) <==> b9 && w == w9);
        },
        Warning::EdgeThresholdRaised { tenths, p50, p90 } => {
            assert(!s9.contains(w));
        },
    }
}

proof fn lemma_listed(s: Seq<Warning>, b: bool, v: Warning, w: Warning)
    ensures
        (s + if_so(b, v)).contains(w) <==> s.contains(w) || (b && w == v),
{
    let c = s + if_so(b, v);
    if s.contains(w) {
        let i = choose|i: int| 0 <= i < s.len() && s[i] == w;
        assert(c[i] == w);
    }
    if b {
        assert(c[s.len() as int] == v);
    }
    if c.contains(w) {
        let i = choose|i: int| 0 <= i < c.len() && c[i] == w;
        if i < s.len() {
            assert(s[i] == w);
        }
    }
}

/// The raised threshold is half as much again as the texture: for a texture of `u`
/// tenths it has one and a half times as many, and where that is a middle the next
/// tenth above or below, as told.
pub proof fn law_the_raised_threshold_is_half_as_much_again(u: int, s: u64, halves_up: bool, tenths: int)
    requires
        0 <= u,
        s == strength_of_tenths(u),
        is_raised(s, halves_up, tenths),
    ensures
        u % 2 == 0 ==> 2 * tenths == 3 * u,
        u % 2 == 1 && halves_up ==> 2 * tenths == 3 * u + 1,
        u % 2 == 1 && !halves_up ==> 2 * tenths == 3 * u - 1,
        strength_of_tenths(10 * u) == 1_600_000_000 * (u * u),
{
    let (a, b, c) = (2 * tenths - 1, 2 * tenths + 1, 3 * u);
    assert(strength_of_tenths(10 * u) == 1_600_000_000 * (u * u)) by (nonlinear_arith)
        requires
            strength_of_tenths(10 * u) == 16_000_000 * ((10 * u) * (10 * u)),
    ;
    assert(9 * s == 16_000_000 * (c * c)) by (nonlinear_arith)
        requires
            s == 16_000_000 * (u * u),
            c == 3 * u,
    ;
    assert(2 * (tenths + 1) - 1 == b);
    if tenths > 0 {
        assert(a * a <= c * c);
        assert(a <= c) by (nonlinear_arith)
            requires
                a * a <= c * c,
                0 <= c,
        ;
        if !halves_up {
            assert(a < c) by (nonlinear_arith)
                requires
                    a * a < c * c,
                    0 <= c,
            ;
        }
    }
    assert(c * c <= b * b);
    assert(c <= b) by (nonlinear_arith)
        requires
            c * c <= b * b,
            0 <= b,
    ;
    if halves_up {
        assert(c < b) by (nonlinear_arith)
            requires
                c * c < b * b,
                0 <= b,
        ;
    }
}

/// The box that is asked for is told from left to top, right and bottom, each as a share
/// to the nearest ten-thousandth.
pub proof fn law_a_box_is_told_left_top_right_bottom(across: Span, down: Span, l: int, t: int, r: int, b: int)
    requires
        span_ok(across),
        span_ok(down),
        nearest_part(across.lo as int, across.of as int, l),
        nearest_part(down.lo as int, down.of as int, t),
        nearest_part(across.hi as int, across.of as int, r),
        nearest_part(down.hi as int, down.of as int, b),
    ensures
        bbox_text(across, down) == decimal_text(l) + ","@ + decimal_text(t) + ","@ + decimal_text(r) + ","@
            + decimal_text(b),
{
    lemma_nearest_part(across.lo, across.of, l);
    lemma_nearest_part(down.lo, down.of, t);
    lemma_nearest_part(across.hi, across.of, r);
    lemma_nearest_part(down.hi, down.of, b);
}

/// `v` ten-thousandths are nearest to the share, the more of two.
pub open spec fn nearest_part(part: int, of: int, v: int) -> bool {
    2 * (v * of) - of <= 20_000 * part < 2 * (v * of) + of
}

proof fn lemma_nearest_part(part: u64, of: u64, v: int)
    requires
        0 < of,
        nearest_part(part as int, of as int, v),
    ensures
        four_places(part, of) == v,
{
    let (n, d) = (20_000 * part + of, 2 * of as int);
    assert(v * d == 2 * (v * of)) by (nonlinear_arith)
        requires
            d == 2 * of,
    ;
    vstd::arithmetic::div_mod::lemma_fundamental_div_mod_converse(n as int, d, v, n - v * d);
}

} // verus!

//! What a result says of itself.
use vstd::prelude::*;

use crate::cutout::background::BackgroundEstimate;
use crate::cutout::diagnostics::{Diagnostics, Roughness, Share};
use crate::cutout::edges::MAX_STRENGTH;
use crate::cutout::mask::MaskStats;
use crate::cutout::subject::{Confidence, SubjectHint};
use crate::warning::Warning;

verus! {

/// The strength of edges that the fill does not cross: a step in brightness by 8.
pub const DEFAULT_EDGE_THRESHOLD: u64 = 102_400_000_000;

/// Half a tenth under `tenths`, as the square of a change in the unit of strengths.
pub open spec fn half_under(tenths: int) -> int {
    16_000_000 * ((2 * tenths - 1) * (2 * tenths - 1))
}

/// `tenths` is one and a half times the change with strength `s`, in tenths and
/// rounded to the nearest. A value right in the middle goes up or down as told.
pub open spec fn is_raised(s: u64, halves_up: bool, tenths: int) -> bool {
    &&& 0 <= tenths
    &&& if halves_up {
        (tenths > 0 ==> half_under(tenths) <= 9 * s) && 9 * s < half_under(tenths + 1)
    } else {
        (tenths > 0 ==> half_under(tenths) < 9 * s) && 9 * s <= half_under(tenths + 1)
    }
}

/// The strength of a change in tenths.
pub open spec fn strength_of_tenths(tenths: int) -> int {
    16_000_000 * (tenths * tenths)
}

/// The square of an odd number, in the unit of strengths.
fn odd_square(t: u32) -> (r: u64)
    requires
        t <= 6000,
    ensures
        r == half_under(t + 1),
{
    assert((2 * (t + 1) - 1) * (2 * (t + 1) - 1) == (2 * t + 1) * (2 * t + 1)) by (nonlinear_arith);
    assert(0 <= (2 * t + 1) * (2 * t + 1) <= 144_048_004) by (nonlinear_arith)
        requires
            0 <= t <= 6000,
    ;
    let odd: u64 = 2 * (t as u64) + 1;
    16_000_000 * (odd * odd)
}

fn raised_tenths(s: u64, halves_up: bool) -> (r: u32)
    requires
        s <= MAX_STRENGTH,
    ensures
        is_raised(s, halves_up, r as int),
        r <= 6000,
{
    let goal: u64 = 9 * s;
    let mut t: u32 = 0;
    while t < 6000 && (odd_square(t) < goal || (halves_up && odd_square(t) == goal))
        invariant
            goal == 9 * s,
            s <= MAX_STRENGTH,
            t <= 6000,
            t > 0 ==> half_under(t as int) < goal || (halves_up && half_under(t as int) == goal),
        decreases 6000 - t,
    {
        t = t + 1;
    }
    assert((2 * 6001 - 1) * (2 * 6001 - 1) == 144_024_001int) by (nonlinear_arith);
    t
}

/// The strength of edges that the fill does not cross, and a warning if it was
/// raised. What was asked for stands. Otherwise the threshold follows the texture
/// of the background: where an ordinary pixel of the border is itself an edge, the
/// fill would get nowhere. Whether to raise is told by the median, how far by the
/// upper tail. The new threshold is in tenths; `halves_up` tells which way a value
/// in the middle goes.
pub fn resolve_edge_threshold(requested: Option<u64>, p50: u64, p90: u64, halves_up: bool) -> (r: (
    u64,
    Option<Warning>,
))
    requires
        p90 <= MAX_STRENGTH,
    ensures
        requested matches Some(v) ==> r == (v, None::<Warning>),
        requested is None && p50 < DEFAULT_EDGE_THRESHOLD ==> r == (DEFAULT_EDGE_THRESHOLD, None::<Warning>),
        requested is None && p50 >= DEFAULT_EDGE_THRESHOLD ==> exists|tenths: u32| #[trigger]
            is_raised(p90, halves_up, tenths as int) && if tenths <= 80 {
                r == (DEFAULT_EDGE_THRESHOLD, None::<Warning>)
            } else {
                r.0 == strength_of_tenths(tenths as int) && r.1 == Some(
                    Warning::EdgeThresholdRaised { tenths, p50, p90 },
                )
            },
{
    if let Some(v) = requested {
        return (v, None);
    }
    if p50 < DEFAULT_EDGE_THRESHOLD {
        return (DEFAULT_EDGE_THRESHOLD, None);
    }
    let tenths: u32 = raised_tenths(p90, halves_up);
    assert(is_raised(p90, halves_up, tenths as int));
    if tenths <= 80 {
        return (DEFAULT_EDGE_THRESHOLD, None);
    }
    proof {
        let t = tenths as int;
        assert(0 <= t * t <= 36_000_000) by (nonlinear_arith)
            requires
                0 <= t <= 6000,
        ;
    }
    let t: u64 = tenths as u64;
    (16_000_000 * (t * t), Some(Warning::EdgeThresholdRaised { tenths, p50, p90 }))
}

/// Less than 1 % of the image is foreground. An empty image has none.
pub open spec fn too_small(foreground: int, total: int) -> bool {
    total == 0 || 100 * foreground < total
}

/// More than 99 % of the image is foreground.
pub open spec fn too_large(foreground: int, total: int) -> bool {
    total > 0 && 100 * foreground > 99 * total
}

/// The foreground lies strictly between 1 % and 99 % of the image: the boundary is
/// that of a cutout.
pub open spec fn cut_happened(foreground: int, total: int) -> bool {
    total > 0 && total < 100 * foreground < 99 * total
}

/// More than 10 % of the boundary is background.
pub open spec fn halo_high(s: Share) -> bool {
    10 * s.part > s.whole
}

/// The contour strays by more than 0.16 pixels at a long edge of 1000 pixels.
pub open spec fn rough_high(r: Roughness) -> bool {
    6250 * r.thirds > 3 * (r.pixels * r.scale)
}

/// More than 2 % of the rim is background.
pub open spec fn rim_high(s: Share) -> bool {
    50 * s.part > s.whole
}

/// A warning, or none.
pub open spec fn if_so(b: bool, w: Warning) -> Seq<Warning> {
    if b {
        seq![w]
    } else {
        Seq::empty()
    }
}

/// Foreground at the border of the image means that background was left, not that
/// the product is cut off: the background is not of one colour, no box was given,
/// and the product was found.
pub open spec fn misread_as_cropped(
    background: &BackgroundEstimate,
    stats: &MaskStats,
    subject: Option<SubjectHint>,
    bbox_given: bool,
) -> bool {
    stats.touches_edge && !bbox_given && !background.uniform() && (subject matches Some(s) && s.confidence
        == Confidence::High)
}

/// What is to be said of a cutout, in this order.
pub open spec fn warnings_of(
    background: &BackgroundEstimate,
    stats: &MaskStats,
    separability: Option<u64>,
    diagnostics: &Diagnostics,
    subject: Option<SubjectHint>,
    bbox_given: bool,
) -> Seq<Warning> {
    let (foreground, total) = (stats.foreground as u64, stats.total as u64);
    let halo = diagnostics.halo_ratio matches Some(s) && halo_high(s);
    if_so(
        !background.uniform(),
        Warning::LowUniformity { within: background.within, samples: background.samples },
    ) + if_so(
        too_small(foreground as int, total as int),
        Warning::ForegroundTooSmall { foreground, total },
    ) + if_so(
        too_large(foreground as int, total as int),
        Warning::ForegroundTooLarge { foreground, total },
    ) + if_so(
        misread_as_cropped(background, stats, subject, bbox_given),
        Warning::BboxRecommended { across: subject.unwrap().across, down: subject.unwrap().down, foreground, total },
    ) + if_so(
        stats.touches_edge && !misread_as_cropped(background, stats, subject, bbox_given),
        Warning::SubjectTouchesEdge,
    ) + if_so(halo, Warning::HaloRemains { halo: diagnostics.halo_ratio.unwrap() }) + if_so(
        diagnostics.contour_roughness matches Some(r) && rough_high(r),
        Warning::ContourRough { roughness: diagnostics.contour_roughness.unwrap() },
    ) + if_so(
        diagnostics.rim_contamination matches Some(s) && rim_high(s),
        Warning::RimContaminated { rim: diagnostics.rim_contamination.unwrap(), tolerance_helps: halo },
    ) + if_so(
        cut_happened(foreground as int, total as int) && (separability matches Some(v) && v
            < background.delta_e.p50),
        Warning::NotSeparable { separability: separability.unwrap(), spread: background.delta_e.p50 },
    )
}

fn is_rough(r: &Roughness) -> (b: bool)
    requires
        r.thirds <= 255 * r.pixels,
    ensures
        b == rough_high(*r),
{
    proof {
        assert(0 <= r.pixels * r.scale <= 0xffff_ffff_ffff_ffff * 0xffff_ffff) by (nonlinear_arith)
            requires
                0 <= r.pixels <= 0xffff_ffff_ffff_ffff,
                0 <= r.scale <= 0xffff_ffff,
        ;
    }
    6250 * r.thirds > 3 * ((r.pixels as u128) * (r.scale as u128))
}

/// Says what may be wrong with a cutout, so that a caller can act on it.
pub fn collect_warnings(
    background: &BackgroundEstimate,
    stats: &MaskStats,
    separability: Option<u64>,
    diagnostics: &Diagnostics,
    subject: Option<SubjectHint>,
    bbox_given: bool,
) -> (r: Vec<Warning>)
    requires
        stats.total <= u64::MAX,
        stats.foreground <= u64::MAX,
        diagnostics.contour_roughness matches Some(r) ==> r.thirds <= 255 * r.pixels,
    ensures
        r@ == warnings_of(background, stats, separability, diagnostics, subject, bbox_given),
{
    let mut r: Vec<Warning> = Vec::new();
    let (foreground, total): (u64, u64) = (stats.foreground as u64, stats.total as u64);
    let (f, t): (u128, u128) = (foreground as u128, total as u128);
    let uniform: bool = background.is_uniform();
    let misread: bool = match subject {
        Some(s) => stats.touches_edge && !bbox_given && !uniform && s.confidence.is_high(),
        None => false,
    };
    let halo: bool = match diagnostics.halo_ratio {
        Some(s) => 10 * (s.part as u128) > s.whole as u128,
        None => false,
    };
    assert(misread == misread_as_cropped(background, stats, subject, bbox_given));
    push_if(
        &mut r,
        !uniform,
        Warning::LowUniformity { within: background.within, samples: background.samples },
    );
    push_if(&mut r, t == 0 || 100 * f < t, Warning::ForegroundTooSmall { foreground, total });
    push_if(&mut r, t > 0 && 100 * f > 99 * t, Warning::ForegroundTooLarge { foreground, total });
    if let Some(s) = subject {
        push_if(&mut r, misread, Warning::BboxRecommended { across: s.across, down: s.down, foreground, total });
    }
    push_if(&mut r, stats.touches_edge && !misread, Warning::SubjectTouchesEdge);
    if let Some(s) = diagnostics.halo_ratio {
        push_if(&mut r, halo, Warning::HaloRemains { halo: s });
    }
    if let Some(v) = diagnostics.contour_roughness {
        push_if(&mut r, is_rough(&v), Warning::ContourRough { roughness: v });
    }
    if let Some(s) = diagnostics.rim_contamination {
        push_if(
            &mut r,
            50 * (s.part as u128) > s.whole as u128,
            Warning::RimContaminated { rim: s, tolerance_helps: halo },
        );
    }
    if let Some(v) = separability {
        push_if(
            &mut r,
            t > 0 && 100 * f > t && 100 * f < 99 * t && v < background.delta_e.p50,
            Warning::NotSeparable { separability: v, spread: background.delta_e.p50 },
        );
    }
    r
}

fn push_if(r: &mut Vec<Warning>, b: bool, w: Warning)
    ensures
        final(r)@ == old(r)@ + if_so(b, w),
{
    if b {
        r.push(w);
    }
    assert(r@ =~= old(r)@ + if_so(b, w));
}

/// The warnings of a whole run: that the threshold was raised comes first, since
/// the others are about what it led to.
pub fn all_warnings(raised: Option<Warning>, result: Vec<Warning>) -> (r: Vec<Warning>)
    ensures
        r@ == match raised {
            Some(w) => seq![w] + result@,
            None => result@,
        },
{
    match raised {
        None => result,
        Some(w) => {
            let mut r: Vec<Warning> = Vec::with_capacity(result.len());
            r.push(w);
            let mut k: usize = 0;
            while k < result.len()
                invariant
                    k <= result@.len(),
                    r@ == seq![w] + result@.take(k as int),
                decreases result@.len() - k,
            {
                r.push(result[k]);
                assert(result@.take(k + 1) =~= result@.take(k as int).push(result@[k as int]));
                assert(r@ =~= seq![w] + result@.take(k + 1));
                k += 1;
            }
            assert(result@.take(k as int) =~= result@);
            r
        },
    }
}

} // verus!

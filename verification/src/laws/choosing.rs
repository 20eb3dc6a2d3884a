//! Laws of what is tried and of what wins, told in the numbers of the trials.
use std::cmp::Ordering;

use vstd::prelude::*;

use crate::cutout::background::{BackgroundModel, ResolvedModel};
use crate::cutout::diagnostics::{Diagnostics, Roughness, Share};
use crate::cutout::optimize::{
    box_on, boxes_of, can_resolve, dead_end, fatal, fatal_ones, fell, final_key, grid, lemma_lexical_at, lexical,
    models_of, of_quality, on_side, quality_of, reduced_side, rough_term, scaled_length, search_fatal, search_key,
    share_term, tolerances, tolerances_of, unmeasured_of, Candidate, CandidateBbox, Finals, OptimizeFixed, Trial,
};
use crate::cutout::subject::{Confidence, SubjectHint};
use crate::geometry::Rect;
use crate::tally::tally;
use crate::warning::WarningCode;

verus! {

/// Among trials with as many fatal warnings, the search ranks first the one whose
/// product is farther from the background.
pub proof fn law_the_greater_distance_leads_the_search(a: &Trial, b: &Trial, p: u64, q: u64)
    requires
        a.first_rank() == b.first_rank(),
        a.separability == Some(p),
        b.separability == Some(q),
        p > q,
    ensures
        lexical(search_key(a), search_key(b)) == Ordering::Less,
{
    lemma_lexical_at(search_key(a), search_key(b), 1);
}

/// Fewer fatal warnings lead the search, whatever the rest says.
pub proof fn law_fatal_warnings_lead_the_search(a: &Trial, b: &Trial)
    requires
        a.first_rank() < b.first_rank(),
    ensures
        lexical(search_key(a), search_key(b)) == Ordering::Less,
{
    lemma_lexical_at(search_key(a), search_key(b), 0);
}

/// In the final stage, where the fatal warnings and the missing measures are as many,
/// the lower sum of measures wins; where that is the same too, the greater distance.
pub proof fn law_the_better_boundary_wins(a: &Trial, b: &Trial)
    requires
        a.final_rank() == b.final_rank(),
        a.score.unmeasured == b.score.unmeasured,
    ensures
        a.score.quality < b.score.quality ==> lexical(final_key(a), final_key(b)) == Ordering::Less,
        a.score.quality == b.score.quality && a.score.separability > b.score.separability ==> lexical(
            final_key(a),
            final_key(b),
        ) == Ordering::Less,
{
    if a.score.quality < b.score.quality {
        lemma_lexical_at(final_key(a), final_key(b), 2);
    } else if a.score.quality == b.score.quality && a.score.separability > b.score.separability {
        lemma_lexical_at(final_key(a), final_key(b), 3);
    }
}

/// Equals are told apart by the setting: the lower tolerance wins, then no box over
/// one, then the model in the order auto, flat, field.
pub proof fn law_the_lesser_setting_wins_a_tie(a: &Trial, b: &Trial)
    requires
        a.final_rank() == b.final_rank(),
        a.score.unmeasured == b.score.unmeasured,
        a.score.quality == b.score.quality,
        a.score.separability == b.score.separability,
    ensures
        a.candidate.tolerance < b.candidate.tolerance ==> lexical(final_key(a), final_key(b)) == Ordering::Less,
        a.candidate.tolerance == b.candidate.tolerance && a.candidate.bbox is None && b.candidate.bbox is Some
            ==> lexical(final_key(a), final_key(b)) == Ordering::Less,
        a.candidate.tolerance == b.candidate.tolerance && (a.candidate.bbox is Some) == (b.candidate.bbox is Some) && ((
        a.candidate.background_model == BackgroundModel::Auto && b.candidate.background_model != BackgroundModel::Auto)
            || (a.candidate.background_model == BackgroundModel::Flat && b.candidate.background_model
            == BackgroundModel::Field)) ==> lexical(final_key(a), final_key(b)) == Ordering::Less,
{
    let (x, y) = (final_key(a), final_key(b));
    if a.candidate.tolerance < b.candidate.tolerance {
        lemma_lexical_at(x, y, 4);
    } else if a.candidate.tolerance == b.candidate.tolerance {
        if a.candidate.bbox is None && b.candidate.bbox is Some {
            lemma_lexical_at(x, y, 5);
        } else if (a.candidate.bbox is Some) == (b.candidate.bbox is Some) && x[6] != y[6] {
            lemma_lexical_at(x, y, 6);
        }
    }
}

/// What a fatal warning is, what ends a search, and what could be better.
pub proof fn law_warnings_have_their_weight(code: WarningCode)
    ensures
        search_fatal(code) <==> code == WarningCode::NotSeparable || code == WarningCode::ForegroundTooSmall || code
            == WarningCode::ForegroundTooLarge,
        fatal(code) <==> search_fatal(code) || code == WarningCode::SubjectTouchesEdge || code
            == WarningCode::BboxRecommended,
        dead_end(code) <==> fatal(code) && code != WarningCode::BboxRecommended,
        of_quality(code) <==> code == WarningCode::HaloRemains || code == WarningCode::ContourRough || code
            == WarningCode::RimContaminated,
{
}

/// A measure counts for as much as it is against its threshold: for one just there,
/// for nothing where there is nothing, and never for less where there is more. A
/// measure that is missing counts as one at the threshold.
pub proof fn law_a_measure_counts_against_its_threshold(s: Share, more: Share, per: int)
    requires
        0 < s.whole,
        s.whole == more.whole,
        s.part <= more.part,
        0 < per,
    ensures
        share_term(Some(s), per) <= share_term(Some(more), per),
        share_term(Some(s), per) >= 1_073_741_824 <==> per * s.part >= s.whole,
        s.part == 0 ==> share_term(Some(s), per) == 0,
        share_term(None, per) == 1_073_741_824,
{
    let (w, p, q) = (s.whole as int, s.part * per, more.part * per);
    let one = 1_073_741_824int;
    assert(0 <= p <= q) by (nonlinear_arith)
        requires
            p == s.part * per,
            q == more.part * per,
            0 <= s.part <= more.part,
            0 < per,
    ;
    assert(p == per * s.part) by (nonlinear_arith)
        requires
            p == s.part * per,
    ;
    vstd::arithmetic::div_mod::lemma_div_is_ordered(p * one, q * one, w);
    assert((p * one) / w >= one <==> p >= w) by (nonlinear_arith)
        requires
            0 < w,
            0 <= p,
            one == 1_073_741_824,
    ;
    assert(0int / w == 0) by (nonlinear_arith)
        requires
            0 < w,
    ;
    if s.part == 0 {
        assert(p == 0) by (nonlinear_arith)
            requires
                p == s.part * per,
                s.part == 0,
        ;
    }
}

/// The roughness counts for one at 0.16 pixels at a long edge of a thousand.
pub proof fn law_roughness_counts_against_its_threshold(r: Roughness)
    requires
        0 < r.pixels,
        0 < r.scale,
    ensures
        rough_term(Some(r)) >= 1_073_741_824 <==> 100_000 * r.thirds >= 48 * (r.pixels * r.scale),
        rough_term(None) == 1_073_741_824,
{
    let (w, p) = (3 * (r.pixels * r.scale), 6250 * r.thirds);
    let one = 1_073_741_824int;
    assert(0 < r.pixels * r.scale) by (nonlinear_arith)
        requires
            0 < r.pixels,
            0 < r.scale,
    ;
    assert((p * one) / w >= one <==> p >= w) by (nonlinear_arith)
        requires
            0 < w,
            0 <= p,
            one == 1_073_741_824,
    ;
}

/// The sum of measures has the rim against a fiftieth, the halo against a tenth, and
/// the roughness; and what is missing is counted.
pub proof fn law_quality_is_the_sum_of_three_measures(d: &Diagnostics)
    ensures
        quality_of(d) - rough_term(d.contour_roughness) == share_term(d.rim_contamination, 50) + share_term(
            d.halo_ratio,
            10,
        ),
        unmeasured_of(d) == 0 <==> d.rim_contamination is Some && d.contour_roughness is Some && d.halo_ratio is Some,
        unmeasured_of(d) == 3 <==> d.rim_contamination is None && d.contour_roughness is None && d.halo_ratio is None,
        0 <= unmeasured_of(d) <= 3,
{
}

/// Every combination of a box, a tolerance and a model is tried, and each place of the
/// list holds one of them.
pub proof fn law_every_combination_is_tried(
    boxes: Seq<Option<CandidateBbox>>,
    ts: Seq<u64>,
    models: Seq<BackgroundModel>,
    a: int,
    b: int,
    c: int,
)
    requires
        0 <= a < boxes.len(),
        0 <= b < ts.len(),
        0 <= c < models.len(),
    ensures
        ({
            let place = (a * ts.len() + b) * models.len() + c;
            let all = grid(boxes, ts, models);
            &&& all.len() == boxes.len() * ts.len() * models.len()
            &&& 0 <= place < all.len()
            &&& all[place] == (Candidate { bbox: boxes[a], tolerance: ts[b], background_model: models[c] })
        }),
{
    let (n, t, m) = (boxes.len() as int, ts.len() as int, models.len() as int);
    let k = a * t + b;
    let place = k * m + c;
    assert(0 <= k < n * t) by (nonlinear_arith)
        requires
            k == a * t + b,
            0 <= a < n,
            0 <= b < t,
    ;
    assert(0 <= place < n * t * m) by (nonlinear_arith)
        requires
            place == k * m + c,
            0 <= k < n * t,
            0 <= c < m,
    ;
    vstd::arithmetic::div_mod::lemma_fundamental_div_mod_converse(place, m, k, c);
    vstd::arithmetic::div_mod::lemma_fundamental_div_mod_converse(k, t, a, b);
    assert(place == a * (t * m) + (b * m + c) && 0 <= b * m + c < t * m) by (nonlinear_arith)
        requires
            place == k * m + c,
            k == a * t + b,
            0 <= b < t,
            0 <= c < m,
    ;
    vstd::arithmetic::div_mod::lemma_fundamental_div_mod_converse(place, t * m, a, b * m + c);
}

/// The tolerances go up from twelve to sixty in five steps.
pub proof fn law_tolerances_go_up()
    ensures
        tolerances().len() == 5,
        tolerances()[0] == 0x4028_0000_0000_0000,
        tolerances()[4] == 0x404e_0000_0000_0000,
        forall|i: int, j: int| 0 <= i < j < 5 ==> #[trigger] tolerances()[i] < #[trigger] tolerances()[j],
{
}

/// What the user has fixed is all that is tried. Otherwise all tolerances are, no box
/// and the box of a product that was found for certain, and one colour beside a field.
pub proof fn law_what_is_fixed_is_kept_to(
    given: Option<Rect>,
    tolerance: u64,
    model: BackgroundModel,
    fixed: &OptimizeFixed,
    subject: Option<SubjectHint>,
    resolved: ResolvedModel,
)
    ensures
        fixed.tolerance ==> tolerances_of(tolerance, fixed) == seq![tolerance],
        !fixed.tolerance ==> tolerances_of(tolerance, fixed) == tolerances(),
        fixed.background_model ==> models_of(model, fixed, resolved) == seq![model],
        !fixed.background_model ==> models_of(model, fixed, resolved)[0] == BackgroundModel::Auto,
        !fixed.background_model ==> (models_of(model, fixed, resolved).contains(BackgroundModel::Flat) <==> resolved
            == ResolvedModel::Field),
        given matches Some(r) ==> boxes_of(given, fixed, subject) == seq![Some(CandidateBbox::Given(r))],
        given is None ==> boxes_of(given, fixed, subject)[0] is None,
        given is None ==> (boxes_of(given, fixed, subject).len() == 2 <==> !fixed.bbox && (subject matches Some(s)
            && s.confidence == Confidence::High)),
        given is None && boxes_of(given, fixed, subject).len() == 2 ==> boxes_of(given, fixed, subject)[1] == Some(
            CandidateBbox::Subject(subject.unwrap().across, subject.unwrap().down),
        ),
{
    let ms = models_of(model, fixed, resolved);
    if !fixed.background_model && resolved == ResolvedModel::Field {
        assert(ms[1] == BackgroundModel::Flat);
    }
}

/// A box that is brought to another size lies on it and is rounded outward: it begins
/// no later and ends no earlier than the box did, as far as the image reaches, and is
/// off by less than a pixel.
pub proof fn law_a_box_is_brought_to_another_size(g: Rect, source: (u32, u32), target: (u32, u32), r: Rect)
    requires
        0 < source.0 && 0 < source.1 && 0 < target.0 && 0 < target.1,
        source != target,
        box_on(CandidateBbox::Given(g), source, target, r),
    ensures
        r.0 < target.0 && r.1 < target.1 && r.2 < target.0 && r.3 < target.1,
        r.0 * source.0 <= g.0 * target.0,
        r.0 == target.0 - 1 || g.0 * target.0 < (r.0 + 1) * source.0,
        r.1 * source.1 <= g.1 * target.1,
        r.1 == target.1 - 1 || g.1 * target.1 < (r.1 + 1) * source.1,
        r.2 == target.0 - 1 || g.2 * target.0 <= r.2 * source.0,
        (r.2 - 1) * source.0 < g.2 * target.0,
        r.3 == target.1 - 1 || g.3 * target.1 <= r.3 * source.1,
        (r.3 - 1) * source.1 < g.3 * target.1,
{
    lemma_on_side(g.0 as int, source.0 as int, target.0 as int);
    lemma_on_side(g.1 as int, source.1 as int, target.1 as int);
    lemma_on_side(g.2 as int, source.0 as int, target.0 as int);
    lemma_on_side(g.3 as int, source.1 as int, target.1 as int);
}

proof fn lemma_on_side(part: int, of: int, n: int)
    requires
        0 <= part,
        0 < of,
        0 < n,
    ensures
        ({
            let (down, up) = (on_side(part, of, n, false), on_side(part, of, n, true));
            &&& 0 <= down < n
            &&& down * of <= part * n
            &&& down == n - 1 || part * n < (down + 1) * of
            &&& 0 <= up < n
            &&& up == n - 1 || part * n <= up * of
            &&& (up - 1) * of < part * n
        }),
{
    let (p, q) = ((part * n) / of, (part * n + of - 1) / of);
    assert(0 <= part * n) by (nonlinear_arith)
        requires
            0 <= part,
            0 < n,
    ;
    assert(0 <= p && p * of <= part * n < (p + 1) * of) by (nonlinear_arith)
        requires
            p == (part * n) / of,
            0 <= part * n,
            0 < of,
    ;
    assert(0 <= q && (q - 1) * of < part * n <= q * of) by (nonlinear_arith)
        requires
            q == (part * n + of - 1) / of,
            0 <= part * n,
            0 < of,
    ;
    let (down, up) = (on_side(part, of, n, false), on_side(part, of, n, true));
    assert(down * of <= p * of && (up - 1) * of <= (q - 1) * of) by (nonlinear_arith)
        requires
            down <= p,
            up <= q,
            0 < of,
    ;
}

/// The box of a product is brought to an image by its shares of width and height.
pub proof fn law_a_share_is_brought_to_pixels(b: CandidateBbox, source: (u32, u32), target: (u32, u32), r: Rect)
    requires
        can_resolve(b, source, target),
        box_on(b, source, target, r),
    ensures
        b matches CandidateBbox::Subject(across, down) ==> {
            &&& r.0 < target.0 && r.1 < target.1 && r.2 < target.0 && r.3 < target.1
            &&& r.0 * across.of <= across.lo * target.0
            &&& r.0 == target.0 - 1 || across.lo * target.0 < (r.0 + 1) * across.of
            &&& r.1 * down.of <= down.lo * target.1
            &&& r.1 == target.1 - 1 || down.lo * target.1 < (r.1 + 1) * down.of
            &&& r.2 == target.0 - 1 || across.hi * target.0 <= r.2 * across.of
            &&& (r.2 - 1) * across.of < across.hi * target.0
            &&& r.3 == target.1 - 1 || down.hi * target.1 <= r.3 * down.of
            &&& (r.3 - 1) * down.of < down.hi * target.1
        },
{
    if let CandidateBbox::Subject(across, down) = b {
        lemma_on_side(across.lo as int, across.of as int, target.0 as int);
        lemma_on_side(across.hi as int, across.of as int, target.0 as int);
        lemma_on_side(down.lo as int, down.of as int, target.1 as int);
        lemma_on_side(down.hi as int, down.of as int, target.1 as int);
    }
}

/// The foreground fell if less than seven tenths of it are left.
pub proof fn law_less_than_seven_tenths_is_a_fall(before: Share, after: Share)
    requires
        0 < before.whole,
        before.whole == after.whole,
    ensures
        fell(before, after) <==> 10 * after.part < 7 * before.part,
{
    let n = before.whole as int;
    assert(10 * (after.part * n) < 7 * (before.part * n) <==> 10 * after.part < 7 * before.part) by (nonlinear_arith)
        requires
            0 < n,
    ;
}

/// A length shrinks with the long edge, to the nearest pixel, and never grows.
pub proof fn law_lengths_shrink_with_the_long_edge(
    value: u32,
    source: (u32, u32),
    target: (u32, u32),
    from: int,
    to: int,
)
    requires
        from >= source.0 && from >= source.1 && (from == source.0 || from == source.1),
        to >= target.0 && to >= target.1 && (to == target.0 || to == target.1),
        0 < from,
    ensures
        to >= from ==> scaled_length(value, source, target) == value,
        to < from ==> {
            let v = scaled_length(value, source, target);
            2 * (v * from) - from <= 2 * (value * to) < 2 * (v * from) + from
        },
{
    if to < from {
        let n = value * to;
        let v = (2 * n + from) / (2 * from);
        assert(v * (2 * from) <= 2 * n + from < (v + 1) * (2 * from)) by (nonlinear_arith)
            requires
                v == (2 * n + from) / (2 * from),
                0 < from,
        ;
        assert(v * (2 * from) == 2 * (v * from) && (v + 1) * (2 * from) == 2 * (v * from) + 2 * from)
            by (nonlinear_arith);
    }
}

/// A side is brought to a smaller image in proportion, to the nearest pixel and at
/// least one.
pub proof fn law_sides_shrink_in_proportion(n: u32, long: u32, edge: u32)
    requires
        0 < long,
    ensures
        ({
            let v = reduced_side(n, long, edge);
            &&& v >= 1
            &&& v == 1 || 2 * (v * long) - long <= 2 * (n * edge)
            &&& 2 * (n * edge) < 2 * (v * long) + long
        }),
        n == long && edge >= 1 ==> reduced_side(n, long, edge) == edge,
{
    let (l, m) = (long as int, n * edge);
    assert(0 <= m) by (nonlinear_arith)
        requires
            m == n * edge,
            0 <= n,
            0 <= edge,
    ;
    let v = (2 * m + l) / (2 * l);
    assert(v * (2 * l) <= 2 * m + l < (v + 1) * (2 * l)) by (nonlinear_arith)
        requires
            v == (2 * m + l) / (2 * l),
            0 < l,
    ;
    assert(v * (2 * l) == 2 * (v * l) && (v + 1) * (2 * l) == 2 * (v * l) + 2 * l) by (nonlinear_arith);
    if v < 1 {
        assert(2 * m + l < 2 * l) by (nonlinear_arith)
            requires
                2 * m + l < (v + 1) * (2 * l),
                v < 1,
                0 < l,
        ;
    }
    if n == long && edge >= 1 {
        assert(v == edge) by (nonlinear_arith)
            requires
                v * (2 * l) <= 2 * m + l < (v + 1) * (2 * l),
                m == l * edge,
                0 < l,
        ;
    }
}

/// A trial is clean if it has no fatal warning, has not swallowed the product, and
/// nothing could be better.
pub proof fn law_a_clean_trial_has_nothing_to_mend(t: Trial)
    ensures
        t.is_clean() <==> t.score.fatal == 0 && !t.collapsed && !t.warnings@.contains(WarningCode::HaloRemains)
            && !t.warnings@.contains(WarningCode::ContourRough) && !t.warnings@.contains(WarningCode::RimContaminated),
{
    let ws = t.warnings@;
    if t.final_rank() == 0 {
        if forall|i: int| 0 <= i < ws.len() ==> !of_quality(#[trigger] ws[i]) {
            assert forall|c: WarningCode| of_quality(c) implies !ws.contains(c) by {
                if ws.contains(c) {
                    let i = choose|i: int| 0 <= i < ws.len() && ws[i] == c;
                    assert(!of_quality(ws[i]));
                }
            }
            assert(of_quality(WarningCode::HaloRemains) && of_quality(WarningCode::ContourRough) && of_quality(
                WarningCode::RimContaminated,
            ));
        } else {
            let i = choose|i: int| 0 <= i < ws.len() && of_quality(#[trigger] ws[i]);
            assert(ws.contains(ws[i]));
        }
    }
}

/// The fatal warnings of a trial are counted, each that it has.
pub proof fn law_fatal_warnings_are_counted(codes: Seq<WarningCode>, code: WarningCode)
    ensures
        tally(fatal_ones(codes.push(code))) == tally(fatal_ones(codes)) + if search_fatal(code) || code
            == WarningCode::SubjectTouchesEdge || code == WarningCode::BboxRecommended {
            1nat
        } else {
            0nat
        },
        tally(fatal_ones(Seq::empty())) == 0,
{
    let s = fatal_ones(codes.push(code));
    assert(s.drop_last() =~= fatal_ones(codes));
    assert(s.last() == fatal(code));
}

/// No more than two candidates run at full size.
pub proof fn law_two_candidates_run_at_full_size(f: Finals, trials: Seq<Trial>)
    requires
        f.goes_on(trials),
    ensures
        f.ran() < 2,
        f.ran() < trials.len(),
        !f.stopped(),
{
}

} // verus!

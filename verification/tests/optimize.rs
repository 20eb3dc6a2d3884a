use std::cmp::Ordering;

use kiri::cutout::background::{BackgroundModel, ResolvedModel};
use kiri::cutout::diagnostics::{Diagnostics, Roughness, Share};
use kiri::cutout::finish::CutoutOptions;
use kiri::cutout::optimize::{
    apply, better_final, better_search, candidates, collapsed_at_full_size, no_clean_candidate, penalise_collapse,
    quality, reduced_size, scale_length, scale_point, score, search_options, search_tolerances, sort_trials, unmeasured, Candidate,
    CandidateBbox, Finals, OptimizeFixed, Score, Stage, Trial, QUALITY_ONE,
};
use kiri::cutout::search::{Next, Optimizing};
use kiri::cutout::subject::{Confidence, Span, SubjectHint};
use kiri::warning::WarningCode;

fn span(lo: u64, hi: u64, of: u64) -> Span {
    Span { lo, hi, of }
}

fn hint(confidence: Confidence) -> SubjectHint {
    SubjectHint {
        bbox: (10, 20, 90, 120),
        across: span(1, 9, 10),
        down: span(1, 6, 10),
        area: 27,
        pixels: 90,
        far: 30,
        leftover: 0,
        mean: [0, 0, 0],
        touches_edge: false,
        confidence,
    }
}

fn free() -> OptimizeFixed {
    OptimizeFixed::default()
}

fn key(v: f64) -> u64 {
    v.to_bits()
}

fn share(ratio: f64) -> Share {
    Share { part: (ratio * 1e9).round() as u64, whole: 1_000_000_000 }
}

#[test]
fn the_tolerances_are_the_keys_of_their_numbers() {
    let numbers: Vec<f64> = search_tolerances().iter().map(|&k| f64::from_bits(k)).collect();
    assert_eq!(numbers, [12.0, 20.0, 30.0, 45.0, 60.0]);
    assert_eq!(f64::from_bits(CutoutOptions::default().tolerance), 12.0);
}

#[test]
fn a_free_search_tries_twenty_settings() {
    let set = candidates(
        &CutoutOptions::default(),
        &free(),
        Some(hint(Confidence::High)),
        ResolvedModel::Field,
    );
    assert_eq!(set.len(), 20);
    assert_eq!(set.iter().filter(|c| c.bbox.is_none()).count(), 10);
}

#[test]
fn a_flat_background_does_not_get_a_duplicate_model_candidate() {
    let set = candidates(
        &CutoutOptions::default(),
        &free(),
        Some(hint(Confidence::High)),
        ResolvedModel::Flat,
    );
    assert_eq!(set.len(), 10);
    assert!(set.iter().all(|c| c.background_model == BackgroundModel::Auto));
}

#[test]
fn an_explicit_setting_removes_that_axis_from_the_search() {
    let base = CutoutOptions {
        tolerance: key(30.0),
        bbox: Some((5, 6, 70, 80)),
        background_model: BackgroundModel::Flat,
        ..Default::default()
    };
    let set = candidates(
        &base,
        &OptimizeFixed { tolerance: true, bbox: true, background_model: true },
        Some(hint(Confidence::High)),
        ResolvedModel::Field,
    );
    assert_eq!(set.len(), 1);
    assert_eq!(set[0].tolerance, key(30.0));
    assert_eq!(set[0].bbox, Some(CandidateBbox::Given((5, 6, 70, 80))));
    assert_eq!(set[0].background_model, BackgroundModel::Flat);
}

#[test]
fn fixing_the_tolerance_leaves_the_other_axes_free() {
    let base = CutoutOptions { tolerance: key(25.0), ..Default::default() };
    let set = candidates(
        &base,
        &OptimizeFixed { tolerance: true, ..free() },
        Some(hint(Confidence::High)),
        ResolvedModel::Field,
    );
    assert_eq!(set.len(), 4);
    assert!(set.iter().all(|c| c.tolerance == key(25.0)));
}

#[test]
fn a_bbox_that_is_already_set_is_never_discarded() {
    let base = CutoutOptions { bbox: Some((5, 6, 70, 80)), ..Default::default() };
    let set = candidates(&base, &free(), Some(hint(Confidence::High)), ResolvedModel::Field);
    assert_eq!(set.len(), 10);
    assert!(set.iter().all(|c| c.bbox == Some(CandidateBbox::Given((5, 6, 70, 80)))));
}

#[test]
fn a_low_confidence_subject_never_becomes_a_bbox_candidate() {
    for subject in [None, Some(hint(Confidence::Low))] {
        let set = candidates(&CutoutOptions::default(), &free(), subject, ResolvedModel::Field);
        assert_eq!(set.len(), 10);
        assert!(set.iter().all(|c| c.bbox.is_none()));
    }
}

fn no_diagnostics() -> Diagnostics {
    Diagnostics { halo_ratio: None, edge_width: None, contour_roughness: None, rim_contamination: None }
}

fn measured() -> Diagnostics {
    Diagnostics {
        halo_ratio: Some(Share { part: 0, whole: 1 }),
        edge_width: Some(3),
        contour_roughness: Some(Roughness { thirds: 0, pixels: 1, scale: 1000 }),
        rim_contamination: Some(Share { part: 0, whole: 1 }),
    }
}

fn trial(fatal: u64, quality: f64, separability: f64, candidate: Candidate) -> Trial {
    Trial {
        candidate,
        stage: Stage::Search,
        foreground: share(0.3),
        touches_edge: false,
        separability: Some(key(separability)),
        diagnostics: measured(),
        warnings: Vec::new(),
        collapsed: false,
        score: Score {
            fatal,
            unmeasured: 0,
            quality: (quality * QUALITY_ONE as f64) as u128,
            separability: key(separability),
        },
    }
}

fn plain(tolerance: f64) -> Candidate {
    Candidate { tolerance: key(tolerance), bbox: None, background_model: BackgroundModel::Auto }
}

fn with_warnings(mut t: Trial, codes: &[WarningCode]) -> Trial {
    t.warnings = codes.to_vec();
    t.score.fatal = score(&t.warnings, &t.diagnostics, t.separability).fatal;
    t
}

#[test]
fn the_final_score_is_compared_from_the_top_down() {
    let fatal = trial(1, 0.0, 99.0, plain(12.0));
    let clean = trial(0, 9.9, 0.1, plain(12.0));
    assert_eq!(better_final(&clean, &fatal), Ordering::Less);

    let rough = trial(0, 5.0, 99.0, plain(12.0));
    let smooth = trial(0, 1.0, 0.1, plain(12.0));
    assert_eq!(better_final(&smooth, &rough), Ordering::Less);

    let dull = trial(0, 1.0, 10.0, plain(12.0));
    let sharp = trial(0, 1.0, 50.0, plain(12.0));
    assert_eq!(better_final(&sharp, &dull), Ordering::Less);
}

#[test]
fn a_candidate_with_a_measurable_edge_beats_one_without() {
    let mut blank = trial(0, 2.0, 99.0, plain(12.0));
    blank.diagnostics = no_diagnostics();
    blank.score.unmeasured = 3;
    blank.score.quality = quality(&no_diagnostics());

    let real = trial(0, 2.5, 0.1, plain(60.0));
    assert_eq!(better_final(&real, &blank), Ordering::Less);
}

#[test]
fn the_search_stage_ignores_everything_refine_changes() {
    let edgy = with_warnings(trial(0, 9.9, 50.0, plain(60.0)), &[WarningCode::SubjectTouchesEdge]);
    let quiet = trial(0, 0.1, 10.0, plain(12.0));
    assert_eq!(better_search(&edgy, &quiet), Ordering::Less);
    assert_eq!(better_final(&quiet, &edgy), Ordering::Less);

    let advised = with_warnings(trial(0, 9.9, 50.0, plain(60.0)), &[WarningCode::BboxRecommended]);
    assert_eq!(better_search(&advised, &quiet), Ordering::Less);

    let tiny = with_warnings(trial(0, 0.0, 99.0, plain(12.0)), &[WarningCode::ForegroundTooSmall]);
    assert_eq!(better_search(&quiet, &tiny), Ordering::Less);
}

#[test]
fn an_unmeasurable_separability_ranks_below_a_measured_zero() {
    let mut blind = trial(0, 1.0, 0.0, plain(12.0));
    blind.separability = None;
    let zero = trial(0, 1.0, 0.0, plain(60.0));
    assert_eq!(better_search(&zero, &blind), Ordering::Less);
    assert_eq!(better_search(&blind, &zero), Ordering::Greater);
}

#[test]
fn a_tie_is_broken_by_the_least_intervention() {
    let boxed = |t: Trial| Trial {
        candidate: Candidate {
            bbox: Some(CandidateBbox::Subject(span(1, 9, 10), span(1, 9, 10))),
            ..t.candidate
        },
        ..t
    };
    for compare in [
        better_search as fn(&Trial, &Trial) -> Ordering,
        better_final as fn(&Trial, &Trial) -> Ordering,
    ] {
        let low = trial(0, 1.0, 10.0, plain(12.0));
        let high = trial(0, 1.0, 10.0, plain(60.0));
        assert_eq!(compare(&low, &high), Ordering::Less);
        assert_eq!(compare(&low, &boxed(low.clone())), Ordering::Less);

        let flat = trial(
            0,
            1.0,
            10.0,
            Candidate { background_model: BackgroundModel::Flat, ..plain(12.0) },
        );
        assert_eq!(compare(&low, &flat), Ordering::Less);
    }
}

#[test]
fn an_unmeasurable_diagnostic_counts_as_exactly_at_the_threshold() {
    assert_eq!(quality(&no_diagnostics()), 3 * QUALITY_ONE);
    assert_eq!(unmeasured(&no_diagnostics()), 3);
    assert_eq!(unmeasured(&measured()), 0);
    let clean = Diagnostics {
        halo_ratio: Some(Share { part: 0, whole: 1 }),
        edge_width: Some(3),
        contour_roughness: Some(Roughness { thirds: 0, pixels: 1, scale: 1000 }),
        rim_contamination: Some(Share { part: 0, whole: 1 }),
    };
    assert_eq!(quality(&clean), 0);
}

#[test]
fn each_measure_counts_against_its_own_threshold() {
    let halo = Diagnostics { halo_ratio: Some(Share { part: 1, whole: 5 }), ..measured() };
    assert_eq!(quality(&halo), 2 * QUALITY_ONE);
    let rim = Diagnostics { rim_contamination: Some(Share { part: 1, whole: 50 }), ..measured() };
    assert_eq!(quality(&rim), QUALITY_ONE);
    let rough = Diagnostics {
        contour_roughness: Some(Roughness { thirds: 48, pixels: 100, scale: 1000 }),
        ..measured()
    };
    assert_eq!(quality(&rough), QUALITY_ONE);
}

#[test]
fn a_collapsing_foreground_is_treated_as_a_fatal_candidate() {
    let mut trials: Vec<Trial> = [(12.0, 0.30), (20.0, 0.29), (30.0, 0.05), (45.0, 0.04)]
        .into_iter()
        .map(|(tolerance, ratio)| {
            let mut t = trial(0, 1.0, 10.0, plain(tolerance));
            t.foreground = share(ratio);
            t
        })
        .collect();
    penalise_collapse(&mut trials);
    assert_eq!(
        trials.iter().map(|t| t.collapsed).collect::<Vec<_>>(),
        vec![false, false, true, true]
    );
    assert!(trials.iter().all(|t| t.score.fatal == 0));
    assert_eq!(trials.iter().map(|t| t.fatal_rank()).collect::<Vec<_>>(), vec![0, 0, 1, 1]);
    assert_eq!(trials.iter().map(|t| t.search_fatal_rank()).collect::<Vec<_>>(), vec![0, 0, 1, 1]);
}

#[test]
fn the_collapse_gate_compares_within_one_column() {
    let boxed = Candidate {
        bbox: Some(CandidateBbox::Subject(span(1, 9, 10), span(1, 9, 10))),
        ..plain(12.0)
    };
    let mut wide = trial(0, 1.0, 10.0, plain(12.0));
    wide.foreground = share(0.50);
    let mut narrow = trial(0, 1.0, 10.0, boxed);
    narrow.foreground = share(0.20);
    let mut trials = vec![wide, narrow];
    penalise_collapse(&mut trials);
    assert!(trials.iter().all(|t| !t.collapsed));
}

#[test]
fn a_collapsed_candidate_never_counts_as_clean() {
    let mut t = trial(0, 0.0, 50.0, plain(60.0));
    assert!(t.clean());
    t.collapsed = true;
    assert!(!t.clean());
}

#[test]
fn a_full_size_collapse_is_measured_against_the_same_candidate() {
    assert!(collapsed_at_full_size(share(0.2037), share(0.0664)));
    assert!(!collapsed_at_full_size(share(0.2037), share(0.1980)));
    assert!(!collapsed_at_full_size(share(0.2037), share(0.2037 * 0.71)));
    assert!(collapsed_at_full_size(share(0.2037), share(0.2037 * 0.69)));
    assert!(!collapsed_at_full_size(share(0.0), share(0.0)));
}

#[test]
fn a_candidate_replaces_the_settings_it_searches() {
    let mut base = CutoutOptions { bbox: Some((1, 2, 3, 4)), ..Default::default() };
    let boxless = Candidate { background_model: BackgroundModel::Flat, ..plain(45.0) };
    apply(&mut base, &boxless, (120, 90), (120, 90));
    assert_eq!(base.tolerance, key(45.0));
    assert_eq!(base.background_model, BackgroundModel::Flat);
    assert_eq!(base.bbox, None);
    let boxed = Candidate { bbox: Some(CandidateBbox::Given((5, 6, 70, 80))), ..boxless };
    apply(&mut base, &boxed, (120, 90), (120, 90));
    assert_eq!(base.bbox, Some((5, 6, 70, 80)));
}

fn finalise(searched: &mut Vec<Trial>, full: &[Trial]) -> (usize, Option<usize>) {
    let mut ran = 0usize;
    let mut state = Finals::new();
    while let Some(candidate) = state.next(searched) {
        assert_eq!(candidate, searched[ran].candidate);
        let t = Trial { stage: Stage::Final, ..full[ran].clone() };
        ran += 1;
        state.record(searched, t);
    }
    (ran, state.chosen())
}

#[test]
fn a_clean_first_finalist_stops_the_final_stage() {
    let mut searched = vec![trial(0, 1.0, 50.0, plain(12.0)), trial(0, 1.0, 40.0, plain(20.0))];
    let full = vec![trial(0, 0.0, 50.0, plain(12.0)), trial(0, 0.0, 40.0, plain(20.0))];
    assert_eq!(finalise(&mut searched, &full), (1, Some(0)));
    assert_eq!(searched[0].stage, Stage::Final);
    assert_eq!(searched[1].stage, Stage::Search);
    assert_eq!((searched[0].stage.as_str(), searched[1].stage.as_str()), ("final", "search"));
}

#[test]
fn a_finalist_that_collapses_at_full_size_loses_to_the_runner_up() {
    let mut searched = vec![trial(0, 1.0, 50.0, plain(60.0)), trial(0, 1.0, 40.0, plain(45.0))];
    searched[0].foreground = share(0.2037);
    searched[1].foreground = share(0.2098);

    let mut collapsed = trial(0, 0.0, 56.0, plain(60.0));
    collapsed.foreground = share(0.0664);
    let mut survivor = trial(0, 0.9, 47.0, plain(45.0));
    survivor.foreground = share(0.2037);

    assert_eq!(finalise(&mut searched, &[collapsed, survivor]), (2, Some(1)));
    assert!(searched[0].collapsed);
    assert!(!searched[1].collapsed);
}

#[test]
fn no_more_than_two_run_at_full_size() {
    let rough = |t: Trial| with_warnings(t, &[WarningCode::HaloRemains]);
    let mut searched: Vec<Trial> =
        [12.0, 20.0, 30.0].into_iter().map(|v| rough(trial(0, 1.0, 50.0, plain(v)))).collect();
    let full = searched.clone();
    assert_eq!(finalise(&mut searched, &full), (2, Some(0)));
    assert_eq!(finalise(&mut Vec::new(), &[]), (0, None));
}

#[test]
fn a_bbox_recommendation_alone_is_not_a_dead_end() {
    let only_bbox = with_warnings(trial(0, 1.0, 10.0, plain(12.0)), &[WarningCode::BboxRecommended]);
    assert_eq!(only_bbox.score.fatal, 1);
    assert!(no_clean_candidate(&only_bbox).is_none());

    let stuck = with_warnings(
        trial(0, 1.0, 10.0, plain(12.0)),
        &[WarningCode::BboxRecommended, WarningCode::NotSeparable],
    );
    let remaining = no_clean_candidate(&stuck).expect("nothing more can be done");
    assert_eq!(remaining.iter().map(|c| c.as_str()).collect::<Vec<_>>(), ["NOT_SEPARABLE"]);
}

#[test]
fn a_given_bbox_survives_the_round_trip_at_full_size() {
    let given = CandidateBbox::Given((123, 456, 789, 1011));
    assert_eq!(given.resolve((4284, 5712), (4284, 5712)), (123, 456, 789, 1011));
    let small = given.resolve((4284, 5712), (1125, 1500));
    assert!(small.0 <= 33 && small.2 >= 207, "{small:?}");
}

#[test]
fn a_border_follows_the_search_scale_but_never_reaches_zero() {
    assert_eq!(scale_length(2, (4284, 5712), (1125, 1500)), 1);
    assert_eq!(scale_length(1, (4284, 5712), (1125, 1500)).max(1), 1);
    assert_eq!(scale_length(2, (1200, 1200), (1200, 1200)), 2);
    assert_eq!(scale_length(7, (700, 1400), (700, 1400)), 7);
    assert_eq!(scale_length(0, (4284, 5712), (1125, 1500)), 0);
    assert_eq!(scale_length(110, (4284, 5712), (1125, 1500)), 29);
}

#[test]
fn a_subject_bbox_maps_to_both_sizes() {
    let subject = CandidateBbox::Subject(span(0, 2, 4), span(1, 3, 4));
    assert_eq!(subject.resolve((1000, 800), (1000, 800)), (0, 200, 500, 600));
    assert_eq!(subject.resolve((1000, 800), (500, 400)), (0, 100, 250, 300));
}

#[test]
fn the_small_copy_gets_scaled_instructions_and_no_refinement() {
    let base = CutoutOptions {
        border: 2,
        bbox: Some((0, 0, 999, 499)),
        fg_seeds: vec![(0, 0), (999, 500), (500, 250)],
        ..Default::default()
    };
    let small = search_options(&base, (1000, 1000), (100, 100));
    assert_eq!(small.border, 1);
    assert_eq!(small.bbox, Some((0, 0, 99, 50)));
    assert_eq!(small.fg_seeds, vec![(0, 0), (99, 50), (50, 25)]);
    assert!(!small.refine);
    assert_eq!(scale_point(5, 9, (10, 10), (10, 10)), (5, 9));
}

#[test]
fn the_trials_are_sorted_by_the_search() {
    let sorted = sort_trials(vec![
        trial(0, 0.0, 10.0, plain(12.0)),
        with_warnings(trial(0, 0.0, 99.0, plain(20.0)), &[WarningCode::NotSeparable]),
        trial(0, 0.0, 50.0, plain(60.0)),
        trial(0, 0.0, 50.0, plain(45.0)),
    ]);
    let order: Vec<f64> = sorted.iter().map(|t| f64::from_bits(t.candidate.tolerance)).collect();
    assert_eq!(order, [45.0, 60.0, 12.0, 20.0]);
}

/// Runs a search whose outcomes are told by the candidate.
fn run(mut search: Optimizing, outcome: impl Fn(&Candidate) -> Trial) -> (Vec<Trial>, usize, usize, usize) {
    let (mut small, mut full) = (0, 0);
    loop {
        let trial = match search.next() {
            Next::Search(c) => {
                small += 1;
                Trial { stage: Stage::Search, ..outcome(&c) }
            }
            Next::Final(c) => {
                full += 1;
                Trial { stage: Stage::Final, ..outcome(&c) }
            }
            Next::Over => break,
        };
        search.record(trial);
    }
    let done = search.finish();
    assert_eq!(done.trials[done.chosen].stage, Stage::Final);
    (done.trials, done.chosen, small, full)
}

#[test]
fn every_candidate_is_tried_small_and_the_best_at_full_size() {
    let base = CutoutOptions::default();
    let search = Optimizing::start(&base, &free(), None, ResolvedModel::Flat);
    let (trials, chosen, small, full) = run(search, |c| {
        with_warnings(trial(1, 0.5, f64::from_bits(c.tolerance), *c), &[WarningCode::NotSeparable])
    });
    assert_eq!((small, full), (5, 2));
    assert_eq!(f64::from_bits(trials[0].candidate.tolerance), 60.0);
    assert_eq!(trials.iter().filter(|t| t.stage == Stage::Final).count(), 2);
    assert_eq!(chosen, 0);
}

#[test]
fn a_clean_candidate_ends_the_search_at_once() {
    let base = CutoutOptions::default();
    let search = Optimizing::start(&base, &free(), None, ResolvedModel::Flat);
    let (trials, chosen, small, full) =
        run(search, |c| trial(0, 0.1, f64::from_bits(c.tolerance), *c));
    assert_eq!((small, full, chosen), (5, 1, 0));
    assert_eq!(trials.len(), 5);
}

#[test]
fn a_search_with_everything_set_still_chooses() {
    let all = OptimizeFixed { tolerance: true, bbox: true, background_model: true };
    let search = Optimizing::start(&CutoutOptions::default(), &all, None, ResolvedModel::Field);
    let (trials, chosen, small, full) = run(search, |c| trial(0, 0.1, 20.0, *c));
    assert_eq!((trials.len(), chosen, small, full), (1, 0, 1, 1));
}

#[test]
fn trials_of_one_rank_keep_their_order() {
    let mut first = trial(0, 0.1, 20.0, plain(12.0));
    first.touches_edge = true;
    let sorted = sort_trials(vec![first, trial(0, 0.1, 20.0, plain(12.0))]);
    assert!(sorted[0].touches_edge && !sorted[1].touches_edge);
}

#[test]
fn a_long_image_is_brought_to_its_edge() {
    assert_eq!(reduced_size((1500, 900), 1500), None);
    assert_eq!(reduced_size((4284, 5712), 1500), Some((1125, 1500)));
    assert_eq!(reduced_size((3000, 1), 1500), Some((1500, 1)));
    assert_eq!(reduced_size((30_000, 1), 250), Some((250, 1)));
}

//! Searching for the best settings.
//!
//! Every candidate of a fixed set is tried on a small copy, and the best of them
//! at full size. The small copy is not refined, so the two stages rank by
//! different measures: what refinement changes has no say in the first.
use std::cmp::Ordering;

use vstd::prelude::*;

use crate::cutout::background::{BackgroundModel, ResolvedModel};
use crate::cutout::constraints::{nearest, nearest_on, resamples, Constraints};
use crate::cutout::diagnostics::{measures_ok, Diagnostics, Roughness, Share};
use crate::cutout::finish::CutoutOptions;
use crate::cutout::subject::{Confidence, Span, SubjectHint};
use crate::geometry::Rect;
use crate::tally::{lemma_tally_step, tally};
use crate::warning::WarningCode;

verus! {

/// The long edge of the copy on which candidates are tried.
pub const SEARCH_LONG_EDGE: u32 = 1500;

/// How many candidates are tried at full size.
pub const FINALISTS: usize = 2;

/// A quality of one: a measure just at its threshold.
pub const QUALITY_ONE: u128 = 1_073_741_824;

/// The tolerances that are tried, as keys: 12, 20, 30, 45 and 60.
pub open spec fn tolerances() -> Seq<u64> {
    seq![
        0x4028_0000_0000_0000u64,
        0x4034_0000_0000_0000u64,
        0x403e_0000_0000_0000u64,
        0x4046_8000_0000_0000u64,
        0x404e_0000_0000_0000u64,
    ]
}

pub fn search_tolerances() -> (r: Vec<u64>)
    ensures
        r@ == tolerances(),
{
    let r: Vec<u64> = vec![
        0x4028_0000_0000_0000u64,
        0x4034_0000_0000_0000u64,
        0x403e_0000_0000_0000u64,
        0x4046_8000_0000_0000u64,
        0x404e_0000_0000_0000u64,
    ];
    assert(r@ =~= tolerances());
    r
}

/// Without these the cutout has failed.
pub open spec fn fatal(code: WarningCode) -> bool {
    search_fatal(code) || code == WarningCode::SubjectTouchesEdge || code == WarningCode::BboxRecommended
}

/// The same as far as refinement does not change it.
pub open spec fn search_fatal(code: WarningCode) -> bool {
    code == WarningCode::NotSeparable || code == WarningCode::ForegroundTooSmall || code
        == WarningCode::ForegroundTooLarge
}

/// With these nothing more can be done. A recommended box can be followed.
pub open spec fn dead_end(code: WarningCode) -> bool {
    search_fatal(code) || code == WarningCode::SubjectTouchesEdge
}

/// The cutout could be better.
pub open spec fn of_quality(code: WarningCode) -> bool {
    code == WarningCode::HaloRemains || code == WarningCode::ContourRough || code == WarningCode::RimContaminated
}

fn is_search_fatal(code: WarningCode) -> (r: bool)
    ensures
        r == search_fatal(code),
{
    matches!(code, WarningCode::NotSeparable | WarningCode::ForegroundTooSmall | WarningCode::ForegroundTooLarge)
}

fn is_fatal(code: WarningCode) -> (r: bool)
    ensures
        r == fatal(code),
{
    is_search_fatal(code) || matches!(code, WarningCode::SubjectTouchesEdge | WarningCode::BboxRecommended)
}

fn is_dead_end(code: WarningCode) -> (r: bool)
    ensures
        r == dead_end(code),
{
    is_search_fatal(code) || matches!(code, WarningCode::SubjectTouchesEdge)
}

fn is_of_quality(code: WarningCode) -> (r: bool)
    ensures
        r == of_quality(code),
{
    matches!(code, WarningCode::HaloRemains | WarningCode::ContourRough | WarningCode::RimContaminated)
}

/// What was set by the user, and is therefore not searched.
#[derive(Debug, Clone, Copy, PartialEq, Eq, Structural)]
pub struct OptimizeFixed {
    pub tolerance: bool,
    pub bbox: bool,
    pub background_model: bool,
}

impl Default for OptimizeFixed {
    fn default() -> (r: Self)
        ensures
            r == (OptimizeFixed { tolerance: false, bbox: false, background_model: false }),
    {
        OptimizeFixed { tolerance: false, bbox: false, background_model: false }
    }
}

/// The box of a candidate, told by where it comes from: it is worked out anew for
/// every size.
#[derive(Debug, Clone, Copy, PartialEq, Eq)]
pub enum CandidateBbox {
    /// Given in pixels of the full image.
    Given(Rect),
    /// Found around the product, as shares of the width and of the height.
    Subject(Span, Span),
}

/// A place `part / of` of a side of `n` pixels, rounded down or up and held on the
/// side.
pub open spec fn on_side(part: int, of: int, n: int, up: bool) -> int {
    let v = if up { (part * n + of - 1) / of } else { (part * n) / of };
    if v < n - 1 {
        v
    } else {
        n - 1
    }
}

fn place_on_side(part: u64, of: u64, n: u32, up: bool) -> (r: u32)
    requires
        0 < of,
        0 < n,
    ensures
        r == on_side(part as int, of as int, n as int, up),
        r < n,
{
    proof {
        assert(0 <= part * n <= 0xffff_ffff_ffff_ffff * 0xffff_ffff) by (nonlinear_arith)
            requires
                0 <= part <= 0xffff_ffff_ffff_ffff,
                0 <= n <= 0xffff_ffff,
        ;
        assert(0 <= (part * n) / (of as int) && 0 <= (part * n + of - 1) / (of as int)) by (nonlinear_arith)
            requires
                0 <= part * n,
                0 < of,
        ;
    }
    let product: u128 = (part as u128) * (n as u128);
    let v: u128 = if up { (product + (of as u128) - 1) / (of as u128) } else { product / (of as u128) };
    if v < (n - 1) as u128 {
        v as u32
    } else {
        n - 1
    }
}

/// A box on another size, rounded outward.
pub open spec fn box_on(b: CandidateBbox, source: (u32, u32), target: (u32, u32), r: Rect) -> bool {
    let (tw, th) = (target.0 as int, target.1 as int);
    match b {
        CandidateBbox::Given(g) => if source == target {
            r == g
        } else {
            let (sw, sh) = (source.0 as int, source.1 as int);
            &&& r.0 == on_side(g.0 as int, sw, tw, false)
            &&& r.1 == on_side(g.1 as int, sh, th, false)
            &&& r.2 == on_side(g.2 as int, sw, tw, true)
            &&& r.3 == on_side(g.3 as int, sh, th, true)
        },
        CandidateBbox::Subject(across, down) => {
            &&& r.0 == on_side(across.lo as int, across.of as int, tw, false)
            &&& r.1 == on_side(down.lo as int, down.of as int, th, false)
            &&& r.2 == on_side(across.hi as int, across.of as int, tw, true)
            &&& r.3 == on_side(down.hi as int, down.of as int, th, true)
        },
    }
}

/// The sides are not empty, and shares are shares of something.
pub open spec fn can_resolve(b: CandidateBbox, source: (u32, u32), target: (u32, u32)) -> bool {
    &&& 0 < source.0 && 0 < source.1 && 0 < target.0 && 0 < target.1
    &&& b matches CandidateBbox::Subject(across, down) ==> 0 < across.of && 0 < down.of
}

impl CandidateBbox {
    /// The box in pixels of the target. What the user gave is not moved at full
    /// size.
    pub fn resolve(self, source: (u32, u32), target: (u32, u32)) -> (r: Rect)
        requires
            can_resolve(self, source, target),
        ensures
            box_on(self, source, target, r),
    {
        match self {
            CandidateBbox::Given(g) => if source.0 == target.0 && source.1 == target.1 {
                g
            } else {
                (
                    place_on_side(g.0 as u64, source.0 as u64, target.0, false),
                    place_on_side(g.1 as u64, source.1 as u64, target.1, false),
                    place_on_side(g.2 as u64, source.0 as u64, target.0, true),
                    place_on_side(g.3 as u64, source.1 as u64, target.1, true),
                )
            },
            CandidateBbox::Subject(across, down) => (
                place_on_side(across.lo, across.of, target.0, false),
                place_on_side(down.lo, down.of, target.1, false),
                place_on_side(across.hi, across.of, target.0, true),
                place_on_side(down.hi, down.of, target.1, true),
            ),
        }
    }
}

/// One setting to try.
#[derive(Debug, Clone, Copy, PartialEq, Eq)]
pub struct Candidate {
    pub tolerance: u64,
    pub bbox: Option<CandidateBbox>,
    /// What is asked for, not what it resolves to.
    pub background_model: BackgroundModel,
}

/// The boxes that are tried: what is given, or else none and that of a product
/// that was found for certain.
pub open spec fn boxes_of(given: Option<Rect>, fixed: &OptimizeFixed, subject: Option<SubjectHint>) -> Seq<
    Option<CandidateBbox>,
> {
    if fixed.bbox || given is Some {
        seq![
            match given {
                Some(b) => Some(CandidateBbox::Given(b)),
                None => None,
            },
        ]
    } else if subject matches Some(s) && s.confidence == Confidence::High {
        seq![None, Some(CandidateBbox::Subject(subject.unwrap().across, subject.unwrap().down))]
    } else {
        seq![None]
    }
}

/// The tolerances that are tried.
pub open spec fn tolerances_of(tolerance: u64, fixed: &OptimizeFixed) -> Seq<u64> {
    if fixed.tolerance {
        seq![tolerance]
    } else {
        tolerances()
    }
}

/// The models that are tried. One colour is only worth a try beside a field.
pub open spec fn models_of(model: BackgroundModel, fixed: &OptimizeFixed, resolved: ResolvedModel) -> Seq<
    BackgroundModel,
> {
    if fixed.background_model {
        seq![model]
    } else if resolved == ResolvedModel::Field {
        seq![BackgroundModel::Auto, BackgroundModel::Flat]
    } else {
        seq![BackgroundModel::Auto]
    }
}

/// All combinations, in order: by box, then by tolerance, then by model.
pub open spec fn grid(boxes: Seq<Option<CandidateBbox>>, ts: Seq<u64>, models: Seq<BackgroundModel>) -> Seq<Candidate> {
    let (t, m) = (ts.len() as int, models.len() as int);
    Seq::new(
        boxes.len() * ts.len() * models.len(),
        |i: int|
            Candidate {
                bbox: boxes[i / (t * m)],
                tolerance: ts[(i / m) % t],
                background_model: models[i % m],
            },
    )
}

/// The settings to try. What the user has set is not searched.
pub fn candidates(
    base: &CutoutOptions,
    fixed: &OptimizeFixed,
    subject: Option<SubjectHint>,
    resolved: ResolvedModel,
) -> (r: Vec<Candidate>)
    ensures
        r@ == grid(
            boxes_of(base.bbox, fixed, subject),
            tolerances_of(base.tolerance, fixed),
            models_of(base.background_model, fixed, resolved),
        ),
        0 < r@.len() <= 20,
{
    let mut boxes: Vec<Option<CandidateBbox>> = Vec::new();
    if fixed.bbox || base.bbox.is_some() {
        boxes.push(
            match base.bbox {
                Some(b) => Some(CandidateBbox::Given(b)),
                None => None,
            },
        );
    } else {
        boxes.push(None);
        if let Some(s) = subject {
            if s.confidence.is_high() {
                boxes.push(Some(CandidateBbox::Subject(s.across, s.down)));
            }
        }
    }
    assert(boxes@ =~= boxes_of(base.bbox, fixed, subject));
    let ts: Vec<u64> = if fixed.tolerance { vec![base.tolerance] } else { search_tolerances() };
    assert(ts@ =~= tolerances_of(base.tolerance, fixed));
    let models: Vec<BackgroundModel> = if fixed.background_model {
        vec![base.background_model]
    } else if matches!(resolved, ResolvedModel::Field) {
        vec![BackgroundModel::Auto, BackgroundModel::Flat]
    } else {
        vec![BackgroundModel::Auto]
    };
    assert(models@ =~= models_of(base.background_model, fixed, resolved));
    let ghost all = grid(boxes@, ts@, models@);
    let (t, m): (usize, usize) = (ts.len(), models.len());
    proof {
        let (b, ti, mi) = (boxes@.len() as int, t as int, m as int);
        assert(1 <= b * ti * mi <= 20 && 1 <= ti * mi <= 10) by (nonlinear_arith)
            requires
                1 <= b <= 2,
                1 <= ti <= 5,
                1 <= mi <= 2,
        ;
        assert(0 <= b * ti <= 10) by (nonlinear_arith)
            requires
                1 <= b <= 2,
                1 <= ti <= 5,
        ;
    }
    let n: usize = boxes.len() * t * m;
    let mut r: Vec<Candidate> = Vec::with_capacity(n);
    let mut i: usize = 0;
    while i < n
        invariant
            all == grid(boxes@, ts@, models@),
            t == ts@.len(),
            m == models@.len(),
            1 <= t <= 5,
            1 <= m <= 2,
            1 <= t * m <= 10,
            n == boxes@.len() * t * m,
            n == all.len(),
            i <= n,
            r@ == all.take(i as int),
        decreases n - i,
    {
        proof {
            let (b, ti, mi, ii) = (boxes@.len() as int, t as int, m as int, i as int);
            assert(0 <= ii / (ti * mi) < b) by (nonlinear_arith)
                requires
                    0 <= ii < b * ti * mi,
                    1 <= ti * mi,
            ;
        }
        let c: Candidate = Candidate {
            bbox: boxes[i / (t * m)],
            tolerance: ts[(i / m) % t],
            background_model: models[i % m],
        };
        r.push(c);
        assert(all.take(i + 1) =~= all.take(i as int).push(c));
        i += 1;
    }
    assert(all.take(n as int) =~= all);
    r
}

/// Which stage a candidate was tried in.
#[derive(Debug, Clone, Copy, PartialEq, Eq, Structural)]
pub enum Stage {
    Search,
    Final,
}

impl Stage {
    pub open spec fn text(self) -> Seq<char> {
        match self {
            Stage::Search => "search"@,
            Stage::Final => "final"@,
        }
    }

    pub fn as_str(self) -> (r: &'static str)
        ensures
            r@ == self.text(),
    {
        match self {
            Stage::Search => "search",
            Stage::Final => "final",
        }
    }
}

/// What a candidate is judged by, in the terms of both stages.
#[derive(Debug, Clone, Copy, PartialEq, Eq, Structural)]
pub struct Score {
    /// How many fatal warnings there are.
    pub fatal: u64,
    /// How many measures of the boundary could not be taken.
    pub unmeasured: u64,
    /// The sum of the measures, each against its threshold; less is better.
    pub quality: u128,
    /// The distance between product and background, 0 if it is not known; more is
    /// better.
    pub separability: u64,
}

/// A share against its threshold `1 / per`. One that was not measured counts as
/// just at the threshold.
pub open spec fn share_term(s: Option<Share>, per: int) -> int {
    match s {
        Some(v) => (v.part * per * QUALITY_ONE) / (v.whole as int),
        None => QUALITY_ONE as int,
    }
}

/// The roughness against its threshold.
pub open spec fn rough_term(r: Option<Roughness>) -> int {
    match r {
        Some(v) => (6250 * v.thirds * QUALITY_ONE) / (3 * (v.pixels * v.scale)),
        None => QUALITY_ONE as int,
    }
}

/// The sum of the measures against their thresholds.
pub open spec fn quality_of(d: &Diagnostics) -> int {
    share_term(d.rim_contamination, 50) + rough_term(d.contour_roughness) + share_term(d.halo_ratio, 10)
}

fn share_against(s: Option<Share>, per: u64) -> (r: u128)
    requires
        per <= 50,
        s matches Some(v) ==> 0 < v.whole,
    ensures
        r == share_term(s, per as int),
        r <= 0x1_0000_0000_0000_0000_0000_0000_0000,
{
    match s {
        Some(v) => {
            proof {
                assert(0 <= v.part * per <= 0xffff_ffff_ffff_ffff * 50) by (nonlinear_arith)
                    requires
                        0 <= v.part <= 0xffff_ffff_ffff_ffff,
                        0 <= per <= 50,
                ;
                let n = v.part * per * 1_073_741_824;
                assert(0 <= n / (v.whole as int) <= n) by (nonlinear_arith)
                    requires
                        0 <= n,
                        0 < v.whole,
                ;
            }
            (v.part as u128) * (per as u128) * QUALITY_ONE / (v.whole as u128)
        },
        None => QUALITY_ONE,
    }
}

fn rough_against(s: Option<Roughness>) -> (r: u128)
    requires
        s matches Some(v) ==> 0 < v.pixels && 0 < v.scale && v.thirds <= 255 * v.pixels,
    ensures
        r == rough_term(s),
        r <= 0x1000_0000_0000_0000_0000_0000_0000_0000,
{
    match s {
        Some(v) => {
            proof {
                assert(1 <= v.pixels * v.scale <= 0xffff_ffff_ffff_ffff * 0xffff_ffff) by (nonlinear_arith)
                    requires
                        1 <= v.pixels <= 0xffff_ffff_ffff_ffff,
                        1 <= v.scale <= 0xffff_ffff,
                ;
                let n = 6250 * v.thirds * 1_073_741_824;
                let d = 3 * (v.pixels * v.scale);
                assert(0 <= n / d <= n) by (nonlinear_arith)
                    requires
                        0 <= n,
                        1 <= d,
                ;
            }
            6250 * v.thirds * QUALITY_ONE / (3 * ((v.pixels as u128) * (v.scale as u128)))
        },
        None => QUALITY_ONE,
    }
}

/// The sum of the measures against their thresholds.
pub fn quality(d: &Diagnostics) -> (r: u128)
    requires
        measures_ok(d),
    ensures
        r == quality_of(d),
{
    share_against(d.rim_contamination, 50) + rough_against(d.contour_roughness) + share_against(d.halo_ratio, 10)
}

/// How many measures could not be taken.
pub open spec fn unmeasured_of(d: &Diagnostics) -> int {
    (if d.rim_contamination is None { 1int } else { 0 }) + (if d.contour_roughness is None { 1int } else { 0 }) + (
    if d.halo_ratio is None { 1int } else { 0 })
}

pub fn unmeasured(d: &Diagnostics) -> (r: u64)
    ensures
        r == unmeasured_of(d),
{
    let a: u64 = if d.rim_contamination.is_none() { 1 } else { 0 };
    let b: u64 = if d.contour_roughness.is_none() { 1 } else { 0 };
    let c: u64 = if d.halo_ratio.is_none() { 1 } else { 0 };
    a + b + c
}

/// Which of a list of codes are fatal.
pub open spec fn fatal_ones(codes: Seq<WarningCode>) -> Seq<bool> {
    codes.map_values(|c: WarningCode| fatal(c))
}

pub open spec fn search_fatal_ones(codes: Seq<WarningCode>) -> Seq<bool> {
    codes.map_values(|c: WarningCode| search_fatal(c))
}

fn count_fatal(codes: &Vec<WarningCode>) -> (r: u64)
    requires
        codes@.len() <= 0xffff_ffff,
    ensures
        r == tally(fatal_ones(codes@)),
        r <= codes@.len(),
{
    let ghost s = fatal_ones(codes@);
    let mut r: u64 = 0;
    let mut i: usize = 0;
    assert(s.take(0) =~= Seq::empty());
    while i < codes.len()
        invariant
            s == fatal_ones(codes@),
            codes@.len() <= 0xffff_ffff,
            i <= codes@.len(),
            r == tally(s.take(i as int)),
            r <= i,
        decreases codes@.len() - i,
    {
        proof {
            lemma_tally_step(s, i as int);
        }
        if is_fatal(codes[i]) {
            r += 1;
        }
        i += 1;
    }
    assert(s.take(i as int) =~= s);
    r
}

fn count_search_fatal(codes: &Vec<WarningCode>) -> (r: u64)
    requires
        codes@.len() <= 0xffff_ffff,
    ensures
        r == tally(search_fatal_ones(codes@)),
        r <= codes@.len(),
{
    let ghost s = search_fatal_ones(codes@);
    let mut r: u64 = 0;
    let mut i: usize = 0;
    assert(s.take(0) =~= Seq::empty());
    while i < codes.len()
        invariant
            s == search_fatal_ones(codes@),
            codes@.len() <= 0xffff_ffff,
            i <= codes@.len(),
            r == tally(s.take(i as int)),
            r <= i,
        decreases codes@.len() - i,
    {
        proof {
            lemma_tally_step(s, i as int);
        }
        if is_search_fatal(codes[i]) {
            r += 1;
        }
        i += 1;
    }
    assert(s.take(i as int) =~= s);
    r
}

/// The outcome of one candidate, without its image.
#[derive(Debug)]
pub struct Trial {
    pub candidate: Candidate,
    pub stage: Stage,
    /// The foreground, of all pixels.
    pub foreground: Share,
    pub touches_edge: bool,
    pub separability: Option<u64>,
    pub diagnostics: Diagnostics,
    pub warnings: Vec<WarningCode>,
    /// The product was swallowed: the foreground fell too far from one trial to
    /// another.
    pub collapsed: bool,
    pub score: Score,
}

impl Clone for Trial {
    fn clone(&self) -> (r: Self)
        ensures
            r.candidate == self.candidate,
            r.stage == self.stage,
            r.foreground == self.foreground,
            r.touches_edge == self.touches_edge,
            r.separability == self.separability,
            r.diagnostics == self.diagnostics,
            r.warnings@ == self.warnings@,
            r.collapsed == self.collapsed,
            r.score == self.score,
    {
        let warnings: Vec<WarningCode> = self.warnings.clone();
        assert(warnings@ =~= self.warnings@);
        Trial {
            candidate: self.candidate,
            stage: self.stage,
            foreground: self.foreground,
            touches_edge: self.touches_edge,
            separability: self.separability,
            diagnostics: self.diagnostics,
            warnings,
            collapsed: self.collapsed,
            score: self.score,
        }
    }
}

/// What is scored.
pub open spec fn scored(
    warnings: Seq<WarningCode>,
    diagnostics: &Diagnostics,
    separability: Option<u64>,
    s: Score,
) -> bool {
    &&& s.fatal == tally(fatal_ones(warnings))
    &&& s.unmeasured == unmeasured_of(diagnostics)
    &&& s.quality == quality_of(diagnostics)
    &&& s.separability == match separability {
        Some(v) => v,
        None => 0,
    }
}

/// Scores an outcome.
pub fn score(warnings: &Vec<WarningCode>, diagnostics: &Diagnostics, separability: Option<u64>) -> (s: Score)
    requires
        warnings@.len() <= 0xffff_ffff,
        measures_ok(diagnostics),
    ensures
        scored(warnings@, diagnostics, separability, s),
{
    Score {
        fatal: count_fatal(warnings),
        unmeasured: unmeasured(diagnostics),
        quality: quality(diagnostics),
        separability: match separability {
            Some(v) => v,
            None => 0,
        },
    }
}

impl Trial {
    pub open spec fn wf(&self) -> bool {
        &&& self.warnings@.len() <= 0xffff_ffff
        &&& self.score.fatal <= 0xffff_ffff
        &&& 0 < self.foreground.whole <= 0x1000_0000_0000_0000
        &&& self.foreground.part <= self.foreground.whole
    }

    /// The outcome of a candidate.
    pub fn new(
        candidate: Candidate,
        stage: Stage,
        foreground: Share,
        touches_edge: bool,
        separability: Option<u64>,
        diagnostics: Diagnostics,
        warnings: Vec<WarningCode>,
        collapsed: bool,
    ) -> (r: Self)
        requires
            warnings@.len() <= 0xffff_ffff,
            measures_ok(&diagnostics),
            0 < foreground.whole <= 0x1000_0000_0000_0000,
            foreground.part <= foreground.whole,
        ensures
            r.wf(),
            r.candidate == candidate,
            r.stage == stage,
            r.foreground == foreground,
            r.touches_edge == touches_edge,
            r.separability == separability,
            r.diagnostics == diagnostics,
            r.warnings == warnings,
            r.collapsed == collapsed,
            scored(warnings@, &diagnostics, separability, r.score),
    {
        let s: Score = score(&warnings, &diagnostics, separability);
        proof {
            crate::tally::lemma_tally_bound(fatal_ones(warnings@));
        }
        Trial { candidate, stage, foreground, touches_edge, separability, diagnostics, warnings, collapsed, score: s }
    }

    /// What the final stage looks at first: the fatal warnings, and one more if the
    /// product was swallowed.
    pub open spec fn final_rank(&self) -> int {
        self.score.fatal + if self.collapsed { 1int } else { 0 }
    }

    pub fn fatal_rank(&self) -> (r: u64)
        requires
            self.wf(),
        ensures
            r == self.final_rank(),
    {
        self.score.fatal + if self.collapsed { 1 } else { 0 }
    }

    /// What the search looks at first: the fatal warnings that refinement does not
    /// change, and one more if the product was swallowed.
    pub open spec fn first_rank(&self) -> int {
        tally(search_fatal_ones(self.warnings@)) + if self.collapsed { 1int } else { 0 }
    }

    pub fn search_fatal_rank(&self) -> (r: u64)
        requires
            self.wf(),
        ensures
            r == self.first_rank(),
    {
        count_search_fatal(&self.warnings) + if self.collapsed { 1 } else { 0 }
    }

    /// There is nothing to complain of. A swallowed product has no warnings, only
    /// better measures, and is not clean.
    pub open spec fn is_clean(&self) -> bool {
        self.final_rank() == 0 && forall|i: int|
            0 <= i < self.warnings@.len() ==> !of_quality(#[trigger] self.warnings@[i])
    }

    pub fn clean(&self) -> (r: bool)
        requires
            self.wf(),
        ensures
            r == self.is_clean(),
    {
        if self.fatal_rank() != 0 {
            return false;
        }
        let mut i: usize = 0;
        while i < self.warnings.len()
            invariant
                i <= self.warnings@.len(),
                forall|k: int| 0 <= k < i ==> !of_quality(#[trigger] self.warnings@[k]),
            decreases self.warnings@.len() - i,
        {
            if is_of_quality(self.warnings[i]) {
                return false;
            }
            i += 1;
        }
        true
    }

    /// The warnings that leave nothing to be done, in order.
    pub fn remaining_codes(&self) -> (r: Vec<WarningCode>)
        ensures
            r@ == self.warnings@.filter(|c: WarningCode| dead_end(c)),
    {
        let ghost keep = |c: WarningCode| dead_end(c);
        let mut r: Vec<WarningCode> = Vec::new();
        let mut i: usize = 0;
        proof {
            assert(self.warnings@.take(0).filter(keep) =~= Seq::empty()) by {
                reveal(Seq::filter);
            }
        }
        while i < self.warnings.len()
            invariant
                keep == (|c: WarningCode| dead_end(c)),
                i <= self.warnings@.len(),
                r@ == self.warnings@.take(i as int).filter(keep),
            decreases self.warnings@.len() - i,
        {
            let c: WarningCode = self.warnings[i];
            proof {
                let longer = self.warnings@.take(i + 1);
                assert(longer.drop_last() =~= self.warnings@.take(i as int));
                reveal(Seq::filter);
            }
            if is_dead_end(c) {
                r.push(c);
            }
            i += 1;
        }
        assert(self.warnings@.take(i as int) =~= self.warnings@);
        r
    }
}

/// The warnings with which a search ends in nothing, if there are any.
pub fn no_clean_candidate(trial: &Trial) -> (r: Option<Vec<WarningCode>>)
    ensures
        r is None <==> trial.warnings@.filter(|c: WarningCode| dead_end(c)).len() == 0,
        r matches Some(v) ==> v@ == trial.warnings@.filter(|c: WarningCode| dead_end(c)),
{
    let remaining: Vec<WarningCode> = trial.remaining_codes();
    if remaining.len() == 0 {
        None
    } else {
        Some(remaining)
    }
}

/// The place of a model among equals: the fewer means, the better.
pub open spec fn model_place(m: BackgroundModel) -> int {
    match m {
        BackgroundModel::Auto => 0,
        BackgroundModel::Flat => 1,
        BackgroundModel::Field => 2,
    }
}

fn model_rank(m: BackgroundModel) -> (r: u128)
    ensures
        r == model_place(m),
{
    match m {
        BackgroundModel::Auto => 0,
        BackgroundModel::Flat => 1,
        BackgroundModel::Field => 2,
    }
}

/// What decides among equals: the lower tolerance, no box, the first model.
pub open spec fn tie_key(c: Candidate) -> Seq<int> {
    seq![c.tolerance as int, if c.bbox is Some { 1 } else { 0 }, model_place(c.background_model)]
}

/// How the search ranks: by the fatal warnings, then by the distance between
/// product and background, which is last if it is not known, then by the setting.
pub open spec fn search_key(t: &Trial) -> Seq<int> {
    seq![
        t.first_rank(),
        match t.separability {
            Some(v) => u64::MAX - v,
            None => u64::MAX + 1,
        },
    ] + tie_key(t.candidate)
}

/// How the final stage ranks: by the fatal warnings, then by how many measures
/// are missing, by quality, by the distance, and by the setting.
pub open spec fn final_key(t: &Trial) -> Seq<int> {
    seq![
        t.final_rank(),
        t.score.unmeasured as int,
        t.score.quality as int,
        u64::MAX - t.score.separability,
    ] + tie_key(t.candidate)
}

/// A list of numbers as integers.
pub open spec fn wholes(s: Seq<u128>) -> Seq<int> {
    s.map_values(|v: u128| v as int)
}

fn search_numbers(t: &Trial) -> (r: Vec<u128>)
    requires
        t.wf(),
    ensures
        wholes(r@) == search_key(t),
{
    let far: u128 = match t.separability {
        Some(v) => (u64::MAX - v) as u128,
        None => 0x1_0000_0000_0000_0000,
    };
    let boxed: u128 = if t.candidate.bbox.is_some() { 1 } else { 0 };
    let first: u128 = t.search_fatal_rank() as u128;
    let tolerance: u128 = t.candidate.tolerance as u128;
    let model: u128 = model_rank(t.candidate.background_model);
    let r: Vec<u128> = vec![first, far, tolerance, boxed, model];
    assert(wholes(r@) =~= search_key(t));
    r
}

fn final_numbers(t: &Trial) -> (r: Vec<u128>)
    requires
        t.wf(),
    ensures
        wholes(r@) == final_key(t),
{
    let far: u128 = (u64::MAX - t.score.separability) as u128;
    let boxed: u128 = if t.candidate.bbox.is_some() { 1 } else { 0 };
    let first: u128 = t.fatal_rank() as u128;
    let missing: u128 = t.score.unmeasured as u128;
    let tolerance: u128 = t.candidate.tolerance as u128;
    let model: u128 = model_rank(t.candidate.background_model);
    let r: Vec<u128> = vec![first, missing, t.score.quality, far, tolerance, boxed, model];
    assert(wholes(r@) =~= final_key(t));
    r
}

/// Lists of numbers compared from the first place on.
pub open spec fn lexical(a: Seq<int>, b: Seq<int>) -> Ordering
    decreases a.len(),
{
    if a.len() == 0 || b.len() == 0 {
        Ordering::Equal
    } else if a[0] < b[0] {
        Ordering::Less
    } else if a[0] > b[0] {
        Ordering::Greater
    } else {
        lexical(a.drop_first(), b.drop_first())
    }
}

/// The first difference decides.
pub proof fn lemma_lexical_at(a: Seq<int>, b: Seq<int>, i: int)
    requires
        a.len() == b.len(),
        0 <= i < a.len(),
        forall|k: int| 0 <= k < i ==> a[k] == b[k],
        a[i] != b[i],
    ensures
        lexical(a, b) == if a[i] < b[i] { Ordering::Less } else { Ordering::Greater },
    decreases i,
{
    if i > 0 {
        assert(a[0] == b[0]);
        let (c, d) = (a.drop_first(), b.drop_first());
        assert forall|k: int| 0 <= k < i - 1 implies c[k] == d[k] by {
            assert(c[k] == a[k + 1] && d[k] == b[k + 1]);
        }
        lemma_lexical_at(c, d, i - 1);
    }
}

/// Without a difference the lists are equal.
proof fn lemma_lexical_same(a: Seq<int>)
    ensures
        lexical(a, a) == Ordering::Equal,
    decreases a.len(),
{
    if a.len() > 0 {
        lemma_lexical_same(a.drop_first());
    }
}

fn compare(a: &Vec<u128>, b: &Vec<u128>) -> (r: Ordering)
    requires
        a@.len() == b@.len(),
    ensures
        r == lexical(wholes(a@), wholes(b@)),
{
    let ghost (p, q) = (wholes(a@), wholes(b@));
    let mut i: usize = 0;
    while i < a.len()
        invariant
            a@.len() == b@.len(),
            p == wholes(a@),
            q == wholes(b@),
            i <= a@.len(),
            forall|k: int| 0 <= k < i ==> p[k] == q[k],
        decreases a@.len() - i,
    {
        if a[i] < b[i] {
            proof {
                lemma_lexical_at(p, q, i + 0);
            }
            return Ordering::Less;
        }
        if a[i] > b[i] {
            proof {
                lemma_lexical_at(p, q, i + 0);
            }
            return Ordering::Greater;
        }
        i += 1;
    }
    proof {
        assert(p =~= q);
        lemma_lexical_same(p);
    }
    Ordering::Equal
}

/// The order of the search; `Less` is better.
pub fn better_search(a: &Trial, b: &Trial) -> (r: Ordering)
    requires
        a.wf(),
        b.wf(),
    ensures
        r == lexical(search_key(a), search_key(b)),
{
    compare(&search_numbers(a), &search_numbers(b))
}

/// The order of the final stage; `Less` is better.
pub fn better_final(a: &Trial, b: &Trial) -> (r: Ordering)
    requires
        a.wf(),
        b.wf(),
    ensures
        r == lexical(final_key(a), final_key(b)),
{
    compare(&final_numbers(a), &final_numbers(b))
}

/// Turning the lists round turns the order round.
pub proof fn lemma_lexical_flip(a: Seq<int>, b: Seq<int>)
    requires
        a.len() == b.len(),
    ensures
        lexical(a, b) == Ordering::Less <==> lexical(b, a) == Ordering::Greater,
        lexical(a, b) == Ordering::Equal <==> lexical(b, a) == Ordering::Equal,
        lexical(a, b) == Ordering::Equal <==> a == b,
    decreases a.len(),
{
    if a.len() > 0 {
        if a[0] == b[0] {
            lemma_lexical_flip(a.drop_first(), b.drop_first());
            if a.drop_first() == b.drop_first() {
                assert forall|k: int| 0 <= k < a.len() implies a[k] == b[k] by {
                    if k > 0 {
                        assert(a.drop_first()[k - 1] == b.drop_first()[k - 1]);
                    }
                }
                assert(a =~= b);
            }
        }
    } else {
        assert(a =~= b);
    }
}

/// The order of lists is transitive.
pub proof fn lemma_lexical_chain(a: Seq<int>, b: Seq<int>, c: Seq<int>)
    requires
        a.len() == b.len() == c.len(),
        lexical(a, b) != Ordering::Greater,
        lexical(b, c) != Ordering::Greater,
    ensures
        lexical(a, c) != Ordering::Greater,
        lexical(a, b) == Ordering::Less || lexical(b, c) == Ordering::Less ==> lexical(a, c) == Ordering::Less,
    decreases a.len(),
{
    if a.len() > 0 && a[0] == b[0] && b[0] == c[0] {
        lemma_lexical_chain(a.drop_first(), b.drop_first(), c.drop_first());
    }
}

/// The trials are in the order of the search, the best first.
pub open spec fn in_order(trials: Seq<Trial>) -> bool {
    forall|i: int, j: int|
        0 <= i < j < trials.len() ==> lexical(#[trigger] search_key(&trials[i]), #[trigger] search_key(&trials[j]))
            != Ordering::Greater
}

/// `a` ranks before `b` in the search.
fn is_better(a: &Trial, b: &Trial) -> (r: bool)
    requires
        a.wf(),
        b.wf(),
    ensures
        r == (lexical(search_key(a), search_key(b)) == Ordering::Less),
{
    match better_search(a, b) {
        Ordering::Less => true,
        _ => false,
    }
}

/// Where a trial belongs among trials in order: behind all that are no worse.
fn rank_among(trials: &Vec<Trial>, t: &Trial) -> (p: usize)
    requires
        t.wf(),
        forall|k: int| 0 <= k < trials@.len() ==> (#[trigger] trials@[k]).wf(),
        in_order(trials@),
    ensures
        p <= trials@.len(),
        forall|k: int|
            0 <= k < p ==> lexical(#[trigger] search_key(&trials@[k]), search_key(t)) != Ordering::Greater,
        forall|k: int|
            p <= k < trials@.len() ==> lexical(search_key(t), #[trigger] search_key(&trials@[k])) == Ordering::Less,
{
    let n: usize = trials.len();
    let mut p: usize = 0;
    while p < n && !is_better(t, &trials[p])
        invariant
            t.wf(),
            n == trials@.len(),
            forall|k: int| 0 <= k < trials@.len() ==> (#[trigger] trials@[k]).wf(),
            p <= n,
            forall|k: int|
                0 <= k < p ==> lexical(#[trigger] search_key(&trials@[k]), search_key(t)) != Ordering::Greater,
        decreases n - p,
    {
        proof {
            lemma_lexical_flip(search_key(t), search_key(&trials@[p + 0]));
        }
        p += 1;
    }
    proof {
        assert forall|k: int| p <= k < trials@.len() implies lexical(search_key(t), #[trigger] search_key(&trials@[k]))
            == Ordering::Less by {
            if k > p {
                assert(lexical(search_key(&trials@[p + 0]), search_key(&trials@[k])) != Ordering::Greater);
                lemma_lexical_chain(search_key(t), search_key(&trials@[p + 0]), search_key(&trials@[k]));
            }
        }
    }
    p
}

/// The trials that rank with the given key, in their order.
pub open spec fn with_key(trials: Seq<Trial>, key: Seq<int>) -> Seq<Trial> {
    trials.filter(|t: Trial| search_key(&t) == key)
}

/// No trial of the given key.
proof fn lemma_without_key(trials: Seq<Trial>, key: Seq<int>)
    requires
        forall|k: int| 0 <= k < trials.len() ==> #[trigger] search_key(&trials[k]) != key,
    ensures
        with_key(trials, key) == Seq::<Trial>::empty(),
    decreases trials.len(),
{
    reveal(Seq::filter);
    if trials.len() > 0 {
        let rest = trials.drop_last();
        assert forall|k: int| 0 <= k < rest.len() implies #[trigger] search_key(&rest[k]) != key by {
            assert(rest[k] == trials[k]);
        }
        lemma_without_key(rest, key);
        assert(search_key(&trials[trials.len() - 1]) != key);
    } else {
        assert(trials =~= Seq::empty());
    }
}

/// Joining lists joins what they hold of a key.
proof fn lemma_with_key_add(a: Seq<Trial>, b: Seq<Trial>, key: Seq<int>)
    ensures
        with_key(a + b, key) == with_key(a, key) + with_key(b, key),
{
    Seq::filter_distributes_over_add(a, b, |t: Trial| search_key(&t) == key);
}

/// A trial that goes in behind all that are no worse comes last of its key.
proof fn lemma_keeps_order(done: Seq<Trial>, t: Trial, p: int, key: Seq<int>)
    requires
        0 <= p <= done.len(),
        forall|k: int| p <= k < done.len() ==> #[trigger] search_key(&done[k]) != search_key(&t),
    ensures
        with_key(done.insert(p, t), key) == with_key(done, key) + with_key(seq![t], key),
{
    let (a, b) = (done.take(p), done.skip(p));
    assert(done =~= a + b);
    assert(done.insert(p, t) =~= (a + seq![t]) + b);
    lemma_with_key_add(a, b, key);
    lemma_with_key_add(a, seq![t], key);
    lemma_with_key_add(a + seq![t], b, key);
    if key == search_key(&t) {
        assert forall|k: int| 0 <= k < b.len() implies #[trigger] search_key(&b[k]) != key by {
            assert(b[k] == done[p + k]);
        }
        lemma_without_key(b, key);
        assert(with_key(done.insert(p, t), key) =~= with_key(done, key) + with_key(seq![t], key));
    } else {
        assert forall|k: int| 0 <= k < seq![t].len() implies #[trigger] search_key(&seq![t][k]) != key by {}
        lemma_without_key(seq![t], key);
        assert(with_key(done.insert(p, t), key) =~= with_key(done, key) + with_key(seq![t], key));
    }
}

/// Puts the trials in the order of the search. Trials that rank the same keep
/// their order.
#[verifier::rlimit(40)]
pub fn sort_trials(trials: Vec<Trial>) -> (r: Vec<Trial>)
    requires
        forall|k: int| 0 <= k < trials@.len() ==> (#[trigger] trials@[k]).wf(),
    ensures
        in_order(r@),
        r@.to_multiset() == trials@.to_multiset(),
        r@.len() == trials@.len(),
        forall|k: int| 0 <= k < r@.len() ==> (#[trigger] r@[k]).wf(),
        forall|key: Seq<int>| #[trigger] with_key(r@, key) == with_key(trials@, key),
{
    let ghost all = trials@;
    let mut rest: Vec<Trial> = trials;
    let mut r: Vec<Trial> = Vec::new();
    proof {
        all.to_multiset_ensures();
        r@.to_multiset_ensures();
        assert(r@.to_multiset().add(rest@.to_multiset()) =~= all.to_multiset());
        assert forall|key: Seq<int>| #[trigger] with_key(all, key) == with_key(r@, key) + with_key(rest@, key) by {
            lemma_with_key_add(r@, rest@, key);
            assert(r@ + rest@ =~= all);
        }
    }
    while rest.len() > 0
        invariant
            in_order(r@),
            forall|key: Seq<int>| #[trigger] with_key(all, key) == with_key(r@, key) + with_key(rest@, key),
            r@.len() + rest@.len() == all.len(),
            r@.to_multiset().add(rest@.to_multiset()) == all.to_multiset(),
            forall|k: int| 0 <= k < r@.len() ==> (#[trigger] r@[k]).wf(),
            forall|k: int| 0 <= k < rest@.len() ==> (#[trigger] rest@[k]).wf(),
        decreases rest@.len(),
    {
        let ghost (done, left) = (r@, rest@);
        let t: Trial = rest.remove(0);
        assert(t == left[0]);
        let p: usize = rank_among(&r, &t);
        r.insert(p, t);
        proof {
            assert forall|k: int| 0 <= k < rest@.len() implies (#[trigger] rest@[k]).wf() by {
                assert(rest@[k] == left[k + 1]);
            }
            assert forall|k: int| 0 <= k < r@.len() implies (#[trigger] r@[k]).wf() by {
                if k < p {
                    assert(r@[k] == done[k]);
                } else if k > p {
                    assert(r@[k] == done[k - 1]);
                }
            }
            assert forall|i: int, j: int| 0 <= i < j < r@.len() implies lexical(
                #[trigger] search_key(&r@[i]),
                #[trigger] search_key(&r@[j]),
            ) != Ordering::Greater by {
                let a = if i < p { i } else { i - 1 };
                let b = if j < p { j } else { j - 1 };
                if i == p {
                    assert(r@[j] == done[b]);
                    assert(lexical(search_key(&t), search_key(&done[b])) == Ordering::Less);
                } else if j == p {
                    assert(r@[i] == done[i]);
                    assert(lexical(search_key(&done[i]), search_key(&t)) != Ordering::Greater);
                } else {
                    assert(r@[i] == done[a] && r@[j] == done[b]);
                    assert(lexical(search_key(&done[a]), search_key(&done[b])) != Ordering::Greater);
                }
            }
            assert forall|key: Seq<int>| #[trigger] with_key(all, key) == with_key(r@, key) + with_key(rest@, key) by {
                assert forall|k: int| p <= k < done.len() implies #[trigger] search_key(&done[k]) != search_key(&t) by {
                    lemma_lexical_same(search_key(&t));
                }
                lemma_keeps_order(done, t, p + 0, key);
                assert(left =~= seq![t] + rest@);
                lemma_with_key_add(seq![t], rest@, key);
                assert(with_key(r@, key) + with_key(rest@, key) =~= with_key(done, key) + with_key(left, key));
            }
            vstd::seq_lib::to_multiset_insert(done, p + 0, t);
            vstd::seq_lib::to_multiset_remove(left, 0);
            left.to_multiset_ensures();
            assert(left.to_multiset().count(t) > 0) by {
                assert(left.contains(left[0]));
            }
            assert(r@.to_multiset().add(rest@.to_multiset()) =~= done.to_multiset().add(left.to_multiset()));
        }
    }
    proof {
        rest@.to_multiset_ensures();
        assert(rest@ =~= Seq::empty());
        assert(r@.to_multiset() =~= all.to_multiset());
        assert forall|key: Seq<int>| #[trigger] with_key(r@, key) == with_key(all, key) by {
            assert forall|k: int| 0 <= k < rest@.len() implies #[trigger] search_key(&rest@[k]) != key by {}
            lemma_without_key(rest@, key);
            assert(with_key(r@, key) + Seq::<Trial>::empty() =~= with_key(r@, key));
        }
    }
    r
}

/// The foreground fell by more than 30 % from one trial to another. From nothing
/// it cannot fall.
pub open spec fn fell(before: Share, after: Share) -> bool {
    before.part > 0 && 10 * (after.part * before.whole) < 7 * (before.part * after.whole)
}

/// The product was swallowed between two trials of the same candidate.
pub fn collapsed_at_full_size(searched: Share, full: Share) -> (r: bool)
    requires
        searched.part <= searched.whole <= 0x1000_0000_0000_0000,
        full.part <= full.whole <= 0x1000_0000_0000_0000,
    ensures
        r == fell(searched, full),
{
    proof {
        assert(0 <= full.part * searched.whole <= 0x100_0000_0000_0000_0000_0000_0000_0000) by (nonlinear_arith)
            requires
                0 <= full.part <= 0x1000_0000_0000_0000,
                0 <= searched.whole <= 0x1000_0000_0000_0000,
        ;
        assert(0 <= searched.part * full.whole <= 0x100_0000_0000_0000_0000_0000_0000_0000) by (nonlinear_arith)
            requires
                0 <= searched.part <= 0x1000_0000_0000_0000,
                0 <= full.whole <= 0x1000_0000_0000_0000,
        ;
    }
    searched.part > 0 && 10 * ((full.part as u128) * (searched.whole as u128)) < 7 * ((searched.part as u128) * (
    full.whole as u128))
}

/// Two trials stand in one column: both have a box or neither has, and they ask
/// for the same model.
pub open spec fn one_column(a: &Trial, b: &Trial) -> bool {
    (a.candidate.bbox is Some) == (b.candidate.bbox is Some) && a.candidate.background_model
        == b.candidate.background_model
}

/// Trial `j` comes before trial `k` in their column: by tolerance, then by place.
pub open spec fn comes_before(t: Seq<Trial>, j: int, k: int) -> bool {
    &&& 0 <= j < t.len()
    &&& one_column(&t[j], &t[k])
    &&& t[j].candidate.tolerance < t[k].candidate.tolerance || (t[j].candidate.tolerance == t[k].candidate.tolerance
        && j < k)
}

/// Trial `j` comes just before trial `k`.
pub open spec fn just_before(t: Seq<Trial>, j: int, k: int) -> bool {
    comes_before(t, j, k) && forall|m: int|
        0 <= m < t.len() && comes_before(t, j, m) ==> !(#[trigger] comes_before(t, m, k))
}

/// The foreground falls at trial `k`.
pub open spec fn falls_at(t: Seq<Trial>, k: int) -> bool {
    exists|j: int| #[trigger] just_before(t, j, k) && fell(t[j].foreground, t[k].foreground)
}

/// The foreground falls at trial `i` or before it in its column. Where a higher
/// tolerance swallows the product, a still higher one does too.
pub open spec fn has_fallen(t: Seq<Trial>, i: int) -> bool {
    exists|k: int| 0 <= k < t.len() && (k == i || comes_before(t, k, i)) && #[trigger] falls_at(t, k)
}

fn before_in_column(trials: &Vec<Trial>, j: usize, k: usize) -> (r: bool)
    requires
        j < trials@.len(),
        k < trials@.len(),
    ensures
        r == comes_before(trials@, j as int, k as int),
{
    let (a, b): (&Trial, &Trial) = (&trials[j], &trials[k]);
    let same_model: bool = model_rank(a.candidate.background_model) == model_rank(b.candidate.background_model);
    a.candidate.bbox.is_some() == b.candidate.bbox.is_some() && same_model && (a.candidate.tolerance
        < b.candidate.tolerance || (a.candidate.tolerance == b.candidate.tolerance && j < k))
}

/// Tells whether the foreground falls at a trial.
fn falls(trials: &Vec<Trial>, k: usize) -> (r: bool)
    requires
        k < trials@.len(),
        forall|i: int| 0 <= i < trials@.len() ==> (#[trigger] trials@[i]).wf(),
    ensures
        r == falls_at(trials@, k as int),
{
    let ghost t = trials@;
    let ghost ki = k as int;
    let n: usize = trials.len();
    let mut last: Option<usize> = None;
    let mut j: usize = 0;
    while j < n
        invariant
            t == trials@,
            ki == k,
            n == t.len(),
            k < n,
            j <= n,
            last is None ==> forall|m: int| 0 <= m < j ==> !(#[trigger] comes_before(t, m, ki)),
            last matches Some(l) ==> l < n && comes_before(t, l as int, ki) && forall|m: int|
                0 <= m < j && #[trigger] comes_before(t, m, ki) ==> m == l || comes_before(t, m, l as int),
        decreases n - j,
    {
        if before_in_column(trials, j, k) {
            let later: bool = match last {
                Some(l) => before_in_column(trials, l, j),
                None => true,
            };
            if later {
                last = Some(j);
            }
        }
        j += 1;
    }
    match last {
        None => {
            proof {
                if falls_at(t, ki) {
                    let j = choose|j: int| #[trigger] just_before(t, j, ki) && fell(t[j].foreground, t[ki].foreground);
                    assert(comes_before(t, j, ki));
                }
            }
            false
        },
        Some(l) => {
            proof {
                assert(just_before(t, l as int, ki));
                if falls_at(t, ki) {
                    let j = choose|j: int| #[trigger] just_before(t, j, ki) && fell(t[j].foreground, t[ki].foreground);
                    assert(comes_before(t, j, ki));
                    if j != l {
                        assert(comes_before(t, j, l as int));
                        assert(false);
                    }
                }
            }
            collapsed_at_full_size(trials[l].foreground, trials[k].foreground)
        },
    }
}

/// Tells whether the foreground has fallen at a trial or before it.
fn fallen(trials: &Vec<Trial>, drops: &Vec<bool>, i: usize) -> (r: bool)
    requires
        i < trials@.len(),
        drops@.len() == trials@.len(),
        forall|k: int| 0 <= k < trials@.len() ==> #[trigger] drops@[k] == falls_at(trials@, k),
    ensures
        r == has_fallen(trials@, i as int),
{
    let ghost t = trials@;
    let mut k: usize = 0;
    while k < trials.len()
        invariant
            t == trials@,
            i < t.len(),
            drops@.len() == t.len(),
            forall|m: int| 0 <= m < t.len() ==> #[trigger] drops@[m] == falls_at(t, m),
            k <= t.len(),
            forall|m: int|
                0 <= m < k && (m == i || comes_before(t, m, i as int)) ==> !(#[trigger] falls_at(t, m)),
        decreases t.len() - k,
    {
        assert(drops@[k as int] == falls_at(t, k as int));
        if drops[k] && (k == i || before_in_column(trials, k, i)) {
            return true;
        }
        k += 1;
    }
    false
}

/// A trial with the mark of a swallowed product.
pub open spec fn marked(t: Trial, collapsed: bool) -> Trial {
    Trial { collapsed, ..t }
}

/// Marks the trials that swallowed the product. Only within a column can the
/// foreground be compared: a box or another model changes it many times over.
pub fn penalise_collapse(trials: &mut Vec<Trial>)
    requires
        forall|i: int| 0 <= i < old(trials)@.len() ==> (#[trigger] old(trials)@[i]).wf(),
    ensures
        final(trials)@ == Seq::new(
            old(trials)@.len(),
            |i: int| marked(old(trials)@[i], old(trials)@[i].collapsed || has_fallen(old(trials)@, i)),
        ),
{
    let ghost t = trials@;
    let n: usize = trials.len();
    let mut drops: Vec<bool> = Vec::with_capacity(n);
    let mut k: usize = 0;
    while k < n
        invariant
            t == trials@,
            n == t.len(),
            forall|i: int| 0 <= i < t.len() ==> (#[trigger] t[i]).wf(),
            k <= n,
            drops@.len() == k,
            forall|m: int| 0 <= m < k ==> #[trigger] drops@[m] == falls_at(t, m),
        decreases n - k,
    {
        drops.push(falls(trials, k));
        k += 1;
    }
    let mut marks: Vec<bool> = Vec::with_capacity(n);
    let mut i: usize = 0;
    while i < n
        invariant
            t == trials@,
            n == t.len() == drops@.len(),
            forall|m: int| 0 <= m < n ==> #[trigger] drops@[m] == falls_at(t, m),
            i <= n,
            marks@.len() == i,
            forall|m: int| 0 <= m < i ==> #[trigger] marks@[m] == has_fallen(t, m),
        decreases n - i,
    {
        marks.push(fallen(trials, &drops, i));
        i += 1;
    }
    let mut done: Vec<Trial> = Vec::with_capacity(n);
    proof {
        assert(t.subrange(0, n as int) =~= t);
    }
    while trials.len() > 0
        invariant
            n == t.len() == marks@.len(),
            trials@.len() + done@.len() == n,
            trials@ == t.subrange(done@.len() as int, n as int),
            forall|m: int| 0 <= m < n ==> #[trigger] marks@[m] == has_fallen(t, m),
            forall|m: int|
                0 <= m < done@.len() ==> #[trigger] done@[m] == marked(t[m], t[m].collapsed || has_fallen(t, m)),
        decreases trials@.len(),
    {
        let j: usize = done.len();
        let mut one: Trial = trials.remove(0);
        assert(one == t[j as int]);
        one.collapsed = one.collapsed || marks[j];
        done.push(one);
        assert(trials@ =~= t.subrange(done@.len() as int, n as int));
    }
    *trials = done;
    assert(trials@ =~= Seq::new(
        t.len(),
        |i: int| marked(t[i], t[i].collapsed || has_fallen(t, i)),
    ));
}

/// The final stage: the best candidates of the search, one after the other, until
/// one is clean.
///
/// The caller runs a candidate at full size and hands the outcome back; of the
/// results only that of the best so far needs to be kept.
pub struct Finals {
    next: usize,
    best: Option<usize>,
    done: bool,
}

impl Finals {
    /// How many candidates have been run.
    pub closed spec fn ran(&self) -> int {
        self.next as int
    }

    /// The best so far.
    pub closed spec fn leader(&self) -> Option<usize> {
        self.best
    }

    /// A clean candidate has ended the stage.
    pub closed spec fn stopped(&self) -> bool {
        self.done
    }

    /// The stage can go on over these trials.
    pub open spec fn fits(&self, trials: Seq<Trial>) -> bool {
        &&& 0 <= self.ran() <= trials.len()
        &&& self.ran() <= FINALISTS
        &&& self.leader() is None <==> self.ran() == 0
        &&& self.leader() matches Some(b) ==> b < self.ran() && forall|i: int|
            0 <= i < self.ran() ==> lexical(final_key(&trials[b + 0]), #[trigger] final_key(&trials[i]))
                != Ordering::Greater
        &&& forall|i: int| 0 <= i < trials.len() ==> (#[trigger] trials[i]).wf()
        &&& forall|i: int| 0 <= i < self.ran() ==> (#[trigger] trials[i]).stage == Stage::Final
    }

    /// Some candidate is still to be run.
    pub open spec fn goes_on(&self, trials: Seq<Trial>) -> bool {
        !self.stopped() && self.ran() < FINALISTS && self.ran() < trials.len()
    }

    pub fn new() -> (r: Self)
        ensures
            r.ran() == 0,
            r.leader() is None,
            !r.stopped(),
            forall|trials: Seq<Trial>|
                (forall|i: int| 0 <= i < trials.len() ==> (#[trigger] trials[i]).wf()) ==> #[trigger] r.fits(trials),
    {
        Finals { next: 0, best: None, done: false }
    }

    /// The next candidate to run, if there is one.
    pub fn next(&self, trials: &Vec<Trial>) -> (r: Option<Candidate>)
        requires
            self.fits(trials@),
        ensures
            r is Some <==> self.goes_on(trials@),
            r matches Some(c) ==> c == trials@[self.ran()].candidate,
    {
        if self.done || self.next >= FINALISTS || self.next >= trials.len() {
            None
        } else {
            Some(trials[self.next].candidate)
        }
    }

    /// The best of those that were run, if any was.
    pub fn chosen(&self) -> (r: Option<usize>)
        ensures
            r == self.leader(),
    {
        self.best
    }

    /// What the outcome of the candidate that was run leads to. It replaces the
    /// trial of the search. That the product was swallowed is carried over, and is
    /// found anew where the foreground fell from the search to the full size. A
    /// clean outcome ends the stage. Of equals the earlier stays the best.
    pub open spec fn records(
        &self,
        trials: Seq<Trial>,
        trial: Trial,
        then: &Finals,
        after: Seq<Trial>,
        keep: bool,
    ) -> bool {
        let full = full_size(trials[self.ran()], trial);
        &&& then.fits(after)
        &&& then.ran() == self.ran() + 1
        &&& after == trials.update(self.ran(), full)
        &&& then.stopped() == full.is_clean()
        &&& keep <==> (self.leader() matches Some(b) ==> lexical(final_key(&trials[b + 0]), final_key(&full))
            == Ordering::Greater)
        &&& then.leader() matches Some(b) && b == if keep {
            self.ran()
        } else {
            self.leader().unwrap() + 0
        }
    }

    /// Takes the outcome of the candidate that was asked for, run at full size, and
    /// says whether it is the best so far.
    pub fn record(&mut self, trials: &mut Vec<Trial>, trial: Trial) -> (keep: bool)
        requires
            old(self).fits(old(trials)@),
            old(self).goes_on(old(trials)@),
            trial.wf(),
            trial.candidate == old(trials)@[old(self).ran()].candidate,
            trial.stage == Stage::Final,
        ensures
            old(self).records(old(trials)@, trial, final(self), final(trials)@, keep),
    {
        let i: usize = self.next;
        let ghost before = self.best;
        let searched: &Trial = &trials[i];
        let mut full: Trial = trial;
        full.collapsed = searched.collapsed || collapsed_at_full_size(searched.foreground, full.foreground);
        let stop: bool = full.clean();
        let keep: bool = match self.best {
            Some(b) => is_worse(&trials[b], &full),
            None => true,
        };
        let ghost (was, mine) = (trials@, full);
        trials.set(i, full);
        self.next = i + 1;
        self.done = stop;
        if keep {
            self.best = Some(i);
        }
        proof {
            let b = self.best.unwrap() + 0;
            lemma_lexical_flip(final_key(&mine), final_key(&mine));
            assert forall|k: int| 0 <= k < self.ran() implies lexical(
                final_key(&trials@[b]),
                #[trigger] final_key(&trials@[k]),
            ) != Ordering::Greater by {
                if let Some(a) = before {
                    lemma_lexical_flip(final_key(&was[a + 0]), final_key(&mine));
                    if k < i {
                        assert(trials@[k] == was[k]);
                        assert(lexical(final_key(&was[a + 0]), final_key(&was[k])) != Ordering::Greater);
                        if keep {
                            lemma_lexical_chain(final_key(&mine), final_key(&was[a + 0]), final_key(&was[k]));
                        }
                    }
                }
            }
        }
        keep
    }
}

/// A trial at full size, with the mark of a swallowed product.
pub open spec fn full_size(searched: Trial, full: Trial) -> Trial {
    marked(full, searched.collapsed || fell(searched.foreground, full.foreground))
}

/// `a` ranks behind `b` in the final stage.
fn is_worse(a: &Trial, b: &Trial) -> (r: bool)
    requires
        a.wf(),
        b.wf(),
    ensures
        r == (lexical(final_key(a), final_key(b)) == Ordering::Greater),
{
    match better_final(a, b) {
        Ordering::Greater => true,
        _ => false,
    }
}

/// The longer side.
pub open spec fn longer(size: (u32, u32)) -> u32 {
    if size.0 < size.1 {
        size.1
    } else {
        size.0
    }
}

/// A length on another size, rounded to the nearest. Nothing grows.
pub open spec fn scaled_length(value: u32, source: (u32, u32), target: (u32, u32)) -> int {
    let (from, to) = (longer(source) as int, longer(target) as int);
    if to >= from {
        value as int
    } else {
        (2 * (value * to) + from) / (2 * from)
    }
}

pub fn scale_length(value: u32, source: (u32, u32), target: (u32, u32)) -> (r: u32)
    ensures
        r == scaled_length(value, source, target),
        r <= value,
{
    let from: u32 = if source.0 < source.1 { source.1 } else { source.0 };
    let to: u32 = if target.0 < target.1 { target.1 } else { target.0 };
    if to >= from {
        return value;
    }
    proof {
        assert(0 <= value * to <= 0xffff_ffff * 0xffff_ffff) by (nonlinear_arith)
            requires
                0 <= value <= 0xffff_ffff,
                0 <= to <= 0xffff_ffff,
        ;
        assert((2 * (value * to) + from) / (2 * from) <= value) by (nonlinear_arith)
            requires
                0 <= value,
                0 <= to < from,
        ;
    }
    let n: u128 = 2 * ((value as u128) * (to as u128)) + from as u128;
    (n / (2 * (from as u128))) as u32
}

/// A side of an image whose long edge is brought to `edge`: rounded to the nearest,
/// and never nothing.
pub open spec fn reduced_side(n: u32, long: u32, edge: u32) -> int {
    let v = (2 * (n * edge) + long) / (2 * long as int);
    if v < 1 {
        1
    } else {
        v
    }
}

/// The size of a copy whose long edge is no longer than `edge`; absent if the image
/// is small enough as it is.
pub fn reduced_size(size: (u32, u32), edge: u32) -> (r: Option<(u32, u32)>)
    requires
        0 < edge,
    ensures
        r is None <==> longer(size) <= edge,
        r matches Some(s) ==> {
            &&& s.0 == reduced_side(size.0, longer(size), edge)
            &&& s.1 == reduced_side(size.1, longer(size), edge)
            &&& longer(s) == edge
        },
{
    let long: u32 = if size.0 < size.1 { size.1 } else { size.0 };
    if long <= edge {
        return None;
    }
    Some((shorten(size.0, long, edge), shorten(size.1, long, edge)))
}

fn shorten(n: u32, long: u32, edge: u32) -> (r: u32)
    requires
        n <= long,
        0 < edge < long,
    ensures
        r == reduced_side(n, long, edge),
        r <= edge,
        n == long ==> r == edge,
{
    proof {
        assert(0 <= n * edge <= 0xffff_ffff * 0xffff_ffff) by (nonlinear_arith)
            requires
                0 <= n <= 0xffff_ffff,
                0 <= edge <= 0xffff_ffff,
        ;
        assert(n * edge <= long * edge) by (nonlinear_arith)
            requires
                0 <= n <= long,
                0 <= edge,
        ;
        let (a, b) = ((2 * (n * edge) + long), 2 * long);
        assert(a / b <= edge) by (nonlinear_arith)
            requires
                a == 2 * (n * edge) + long,
                b == 2 * long,
                n * edge <= long * edge,
                0 < long,
                0 <= n * edge,
        ;
        if n == long {
            assert(a == edge * b + long) by (nonlinear_arith)
                requires
                    a == 2 * (n * edge) + long,
                    b == 2 * long,
                    n == long,
            ;
            vstd::arithmetic::div_mod::lemma_fundamental_div_mod_converse(a, b, edge as int, long as int);
        }
    }
    let v: u128 = (2 * ((n as u128) * (edge as u128)) + long as u128) / (2 * (long as u128));
    if v < 1 {
        1
    } else {
        v as u32
    }
}

/// A point on another size.
pub fn scale_point(x: u32, y: u32, source: (u32, u32), target: (u32, u32)) -> (r: (u32, u32))
    requires
        0 < source.0 && 0 < source.1 && 0 < target.0 && 0 < target.1,
    ensures
        r.0 == nearest_on(x, source.0, target.0),
        r.1 == nearest_on(y, source.1, target.1),
{
    (nearest(x, source.0, target.0), nearest(y, source.1, target.1))
}

/// The options for the small copy: what is measured in pixels is scaled, the
/// border to no less than a pixel, and nothing is refined.
pub fn search_options(base: &CutoutOptions, source: (u32, u32), target: (u32, u32)) -> (r: CutoutOptions)
    requires
        0 < source.0 && 0 < source.1 && 0 < target.0 && 0 < target.1,
        target.0 * target.1 <= usize::MAX,
        base.wf(),
        base.constraints matches Some(c) ==> 0 < c.w() && 0 < c.h(),
    ensures
        r.border == if scaled_length(base.border, source, target) < 1 {
            1
        } else {
            scaled_length(base.border, source, target)
        },
        base.bbox is None ==> r.bbox is None,
        base.bbox matches Some(b) ==> (r.bbox matches Some(s) && box_on(CandidateBbox::Given(b), source, target, s)),
        r.fg_seeds@.len() == base.fg_seeds@.len(),
        forall|k: int|
            0 <= k < r.fg_seeds@.len() ==> (#[trigger] r.fg_seeds@[k]).0 == nearest_on(
                base.fg_seeds@[k].0,
                source.0,
                target.0,
            ) && r.fg_seeds@[k].1 == nearest_on(base.fg_seeds@[k].1, source.1, target.1),
        base.constraints is None ==> r.constraints is None,
        base.constraints matches Some(c) ==> (r.constraints matches Some(s) && resamples(&c, target, &s)),
        !r.refine,
        r.tolerance == base.tolerance,
        r.cleanup == base.cleanup,
        r.feather == base.feather,
        r.despill == base.despill,
        r.edge_threshold == base.edge_threshold,
        r.step_tolerance == base.step_tolerance,
        r.shadow_tolerance == base.shadow_tolerance,
        r.seal == base.seal,
        r.background_model == base.background_model,
{
    let border: u32 = scale_length(base.border, source, target);
    let bbox: Option<Rect> = match base.bbox {
        Some(b) => Some(CandidateBbox::Given(b).resolve(source, target)),
        None => None,
    };
    let n: usize = base.fg_seeds.len();
    let mut fg_seeds: Vec<(u32, u32)> = Vec::with_capacity(n);
    let mut k: usize = 0;
    while k < n
        invariant
            0 < source.0 && 0 < source.1 && 0 < target.0 && 0 < target.1,
            n == base.fg_seeds@.len(),
            k <= n,
            fg_seeds@.len() == k,
            forall|j: int|
                0 <= j < k ==> (#[trigger] fg_seeds@[j]).0 == nearest_on(base.fg_seeds@[j].0, source.0, target.0)
                    && fg_seeds@[j].1 == nearest_on(base.fg_seeds@[j].1, source.1, target.1),
        decreases n - k,
    {
        let (x, y) = base.fg_seeds[k];
        fg_seeds.push(scale_point(x, y, source, target));
        k += 1;
    }
    let constraints: Option<Constraints> = match &base.constraints {
        Some(c) => Some(c.resampled(target.0, target.1)),
        None => None,
    };
    CutoutOptions {
        tolerance: base.tolerance,
        border: if border < 1 { 1 } else { border },
        bbox,
        fg_seeds,
        constraints,
        cleanup: base.cleanup,
        feather: base.feather,
        despill: base.despill,
        edge_threshold: base.edge_threshold,
        step_tolerance: base.step_tolerance,
        shadow_tolerance: base.shadow_tolerance,
        seal: base.seal,
        refine: false,
        background_model: base.background_model,
    }
}

/// Lays a candidate over the options. A candidate without a box has none, whatever
/// the options held.
pub fn apply(base: &mut CutoutOptions, candidate: &Candidate, source: (u32, u32), target: (u32, u32))
    requires
        candidate.bbox matches Some(b) ==> can_resolve(b, source, target),
    ensures
        final(base).tolerance == candidate.tolerance,
        final(base).background_model == candidate.background_model,
        candidate.bbox is None ==> final(base).bbox is None,
        candidate.bbox matches Some(b) ==> (final(base).bbox matches Some(r) && box_on(b, source, target, r)),
        final(base).border == old(base).border,
        final(base).fg_seeds == old(base).fg_seeds,
        final(base).constraints == old(base).constraints,
        final(base).cleanup == old(base).cleanup,
        final(base).feather == old(base).feather,
        final(base).despill == old(base).despill,
        final(base).edge_threshold == old(base).edge_threshold,
        final(base).step_tolerance == old(base).step_tolerance,
        final(base).shadow_tolerance == old(base).shadow_tolerance,
        final(base).seal == old(base).seal,
        final(base).refine == old(base).refine,
{
    base.tolerance = candidate.tolerance;
    base.bbox = match candidate.bbox {
        Some(b) => Some(b.resolve(source, target)),
        None => None,
    };
    base.background_model = candidate.background_model;
}

} // verus!

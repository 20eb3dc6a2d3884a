//! What may be wrong with a result, for a caller that acts on it.
use vstd::prelude::*;

use crate::cutout::diagnostics::{Roughness, Share};
use crate::cutout::subject::Span;

verus! {

/// The kinds of warnings. Their names are what callers rely on.
#[derive(Debug, Clone, Copy, PartialEq, Eq, Structural)]
pub enum WarningCode {
    LowUniformity,
    ForegroundTooSmall,
    ForegroundTooLarge,
    BboxRecommended,
    SubjectTouchesEdge,
    HaloRemains,
    ContourRough,
    RimContaminated,
    NotSeparable,
    EdgeThresholdRaised,
    OptimizeNoCleanCandidate,
}

impl WarningCode {
    pub open spec fn text(self) -> Seq<char> {
        match self {
            WarningCode::LowUniformity => "LOW_UNIFORMITY"@,
            WarningCode::ForegroundTooSmall => "FOREGROUND_TOO_SMALL"@,
            WarningCode::ForegroundTooLarge => "FOREGROUND_TOO_LARGE"@,
            WarningCode::BboxRecommended => "BBOX_RECOMMENDED"@,
            WarningCode::SubjectTouchesEdge => "SUBJECT_TOUCHES_EDGE"@,
            WarningCode::HaloRemains => "HALO_REMAINS"@,
            WarningCode::ContourRough => "CONTOUR_ROUGH"@,
            WarningCode::RimContaminated => "RIM_CONTAMINATED"@,
            WarningCode::NotSeparable => "NOT_SEPARABLE"@,
            WarningCode::EdgeThresholdRaised => "EDGE_THRESHOLD_RAISED"@,
            WarningCode::OptimizeNoCleanCandidate => "OPTIMIZE_NO_CLEAN_CANDIDATE"@,
        }
    }

    pub fn as_str(self) -> (r: &'static str)
        ensures
            r@ == self.text(),
    {
        match self {
            WarningCode::LowUniformity => "LOW_UNIFORMITY",
            WarningCode::ForegroundTooSmall => "FOREGROUND_TOO_SMALL",
            WarningCode::ForegroundTooLarge => "FOREGROUND_TOO_LARGE",
            WarningCode::BboxRecommended => "BBOX_RECOMMENDED",
            WarningCode::SubjectTouchesEdge => "SUBJECT_TOUCHES_EDGE",
            WarningCode::HaloRemains => "HALO_REMAINS",
            WarningCode::ContourRough => "CONTOUR_ROUGH",
            WarningCode::RimContaminated => "RIM_CONTAMINATED",
            WarningCode::NotSeparable => "NOT_SEPARABLE",
            WarningCode::EdgeThresholdRaised => "EDGE_THRESHOLD_RAISED",
            WarningCode::OptimizeNoCleanCandidate => "OPTIMIZE_NO_CLEAN_CANDIDATE",
        }
    }
}

/// A warning with the numbers it rests on.
#[derive(Debug, Clone, Copy, PartialEq, Eq)]
pub enum Warning {
    /// How many samples of the border are close to the colour of the background.
    LowUniformity { within: u64, samples: u64 },
    ForegroundTooSmall { foreground: u64, total: u64 },
    ForegroundTooLarge { foreground: u64, total: u64 },
    /// The box to ask for, as shares of the width and of the height.
    BboxRecommended { across: Span, down: Span, foreground: u64, total: u64 },
    SubjectTouchesEdge,
    HaloRemains { halo: Share },
    ContourRough { roughness: Roughness },
    /// Whether a higher tolerance would help.
    RimContaminated { rim: Share, tolerance_helps: bool },
    /// The distance between product and background, and the spread of the
    /// background, as keys.
    NotSeparable { separability: u64, spread: u64 },
    /// The raised threshold in tenths, and the strengths it rests on.
    EdgeThresholdRaised { tenths: u32, p50: u64, p90: u64 },
}

/// A share in ten-thousandths, rounded to the nearest.
pub open spec fn four_places(part: u64, of: u64) -> int {
    (20_000 * part + of) / (2 * of as int)
}

/// One digit.
pub open spec fn digit_text(d: int) -> Seq<char> {
    if d == 0 {
        "0"@
    } else if d == 1 {
        "1"@
    } else if d == 2 {
        "2"@
    } else if d == 3 {
        "3"@
    } else if d == 4 {
        "4"@
    } else if d == 5 {
        "5"@
    } else if d == 6 {
        "6"@
    } else if d == 7 {
        "7"@
    } else if d == 8 {
        "8"@
    } else {
        "9"@
    }
}

/// A number from 0 to 1 in ten-thousandths as decimal text, without trailing
/// zeros.
pub open spec fn decimal_text(q: int) -> Seq<char> {
    let (a, b, c, d) = (q / 1000, (q / 100) % 10, (q / 10) % 10, q % 10);
    if q <= 0 {
        "0"@
    } else if q >= 10_000 {
        "1"@
    } else if d != 0 {
        "0."@ + digit_text(a) + digit_text(b) + digit_text(c) + digit_text(d)
    } else if c != 0 {
        "0."@ + digit_text(a) + digit_text(b) + digit_text(c)
    } else if b != 0 {
        "0."@ + digit_text(a) + digit_text(b)
    } else {
        "0."@ + digit_text(a)
    }
}

fn digit(d: u64) -> (r: &'static str)
    requires
        d <= 9,
    ensures
        r@ == digit_text(d as int),
{
    if d == 0 {
        "0"
    } else if d == 1 {
        "1"
    } else if d == 2 {
        "2"
    } else if d == 3 {
        "3"
    } else if d == 4 {
        "4"
    } else if d == 5 {
        "5"
    } else if d == 6 {
        "6"
    } else if d == 7 {
        "7"
    } else if d == 8 {
        "8"
    } else {
        "9"
    }
}

fn decimal(q: u64) -> (r: String)
    ensures
        r@ == decimal_text(q as int),
{
    if q == 0 {
        return String::from_str("0");
    }
    if q >= 10_000 {
        return String::from_str("1");
    }
    let (a, b, c, d): (u64, u64, u64, u64) = (q / 1000, (q / 100) % 10, (q / 10) % 10, q % 10);
    let start: String = String::from_str("0.").concat(digit(a));
    if d != 0 {
        start.concat(digit(b)).concat(digit(c)).concat(digit(d))
    } else if c != 0 {
        start.concat(digit(b)).concat(digit(c))
    } else if b != 0 {
        start.concat(digit(b))
    } else {
        start
    }
}

/// A share in ten-thousandths.
fn rounded(part: u64, of: u64) -> (r: u64)
    requires
        0 < of,
        part <= of,
    ensures
        r == four_places(part, of),
        r <= 10_000,
{
    let n: u128 = 20_000 * (part as u128) + (of as u128);
    let d: u128 = 2 * (of as u128);
    proof {
        assert(n / d <= 10_000) by (nonlinear_arith)
            requires
                n == 20_000 * part + of,
                d == 2 * of,
                part <= of,
                0 < of,
        ;
    }
    (n / d) as u64
}

/// A box as an argument of the command line: left, top, right and bottom as
/// shares with four places. Fewer places would move the box into the product.
pub open spec fn bbox_text(across: Span, down: Span) -> Seq<char> {
    decimal_text(four_places(across.lo, across.of)) + ","@ + decimal_text(four_places(down.lo, down.of)) + ","@
        + decimal_text(four_places(across.hi, across.of)) + ","@ + decimal_text(four_places(down.hi, down.of))
}

/// A stretch of an edge.
pub open spec fn span_ok(s: Span) -> bool {
    0 < s.of && s.lo <= s.of && s.hi <= s.of
}

pub fn bbox_argument(across: Span, down: Span) -> (r: String)
    requires
        span_ok(across),
        span_ok(down),
    ensures
        r@ == bbox_text(across, down),
{
    let x1: String = decimal(rounded(across.lo, across.of));
    let y1: String = decimal(rounded(down.lo, down.of));
    let x2: String = decimal(rounded(across.hi, across.of));
    let y2: String = decimal(rounded(down.hi, down.of));
    x1.concat(",").concat(y1.as_str()).concat(",").concat(x2.as_str()).concat(",").concat(y2.as_str())
}

impl Warning {
    pub open spec fn code_of(self) -> WarningCode {
        match self {
            Warning::LowUniformity { .. } => WarningCode::LowUniformity,
            Warning::ForegroundTooSmall { .. } => WarningCode::ForegroundTooSmall,
            Warning::ForegroundTooLarge { .. } => WarningCode::ForegroundTooLarge,
            Warning::BboxRecommended { .. } => WarningCode::BboxRecommended,
            Warning::SubjectTouchesEdge => WarningCode::SubjectTouchesEdge,
            Warning::HaloRemains { .. } => WarningCode::HaloRemains,
            Warning::ContourRough { .. } => WarningCode::ContourRough,
            Warning::RimContaminated { .. } => WarningCode::RimContaminated,
            Warning::NotSeparable { .. } => WarningCode::NotSeparable,
            Warning::EdgeThresholdRaised { .. } => WarningCode::EdgeThresholdRaised,
        }
    }

    pub fn code(self) -> (r: WarningCode)
        ensures
            r == self.code_of(),
    {
        match self {
            Warning::LowUniformity { .. } => WarningCode::LowUniformity,
            Warning::ForegroundTooSmall { .. } => WarningCode::ForegroundTooSmall,
            Warning::ForegroundTooLarge { .. } => WarningCode::ForegroundTooLarge,
            Warning::BboxRecommended { .. } => WarningCode::BboxRecommended,
            Warning::SubjectTouchesEdge => WarningCode::SubjectTouchesEdge,
            Warning::HaloRemains { .. } => WarningCode::HaloRemains,
            Warning::ContourRough { .. } => WarningCode::ContourRough,
            Warning::RimContaminated { .. } => WarningCode::RimContaminated,
            Warning::NotSeparable { .. } => WarningCode::NotSeparable,
            Warning::EdgeThresholdRaised { .. } => WarningCode::EdgeThresholdRaised,
        }
    }

    /// What the caller can do about it. A contour that is rough, a product that is
    /// cut off, and a rim that no setting mends have no hint: advice that cannot
    /// be followed is worse than none.
    pub open spec fn hint_text(self) -> Option<Seq<char>> {
        match self {
            Warning::LowUniformity { .. } => Some("切り抜き結果を確認してください"@),
            Warning::ForegroundTooSmall { .. } => Some("--tolerance を下げるか --bbox で対象を指定してください"@),
            Warning::ForegroundTooLarge { .. } => Some("--tolerance を上げてください"@),
            Warning::BboxRecommended { across, down, .. } => Some(
                "--bbox "@ + bbox_text(across, down) + " --normalized を指定してください"@,
            ),
            Warning::SubjectTouchesEdge => None,
            Warning::HaloRemains { .. } => Some("--tolerance を上げると背景の残りが減ります"@),
            Warning::ContourRough { .. } => None,
            Warning::RimContaminated { tolerance_helps, .. } => if tolerance_helps {
                Some("--tolerance を上げると背景の残りが減ります"@)
            } else {
                None
            },
            Warning::NotSeparable { .. } => Some(
                "パラメータ調整では解決しません。単色背景で撮り直してください"@,
            ),
            Warning::EdgeThresholdRaised { .. } => Some(
                "--edge-threshold を明示すれば自動調整は割り込みません"@,
            ),
        }
    }

    pub fn hint(self) -> (r: Option<String>)
        requires
            self matches Warning::BboxRecommended { across, down, .. } ==> span_ok(across) && span_ok(down),
        ensures
            r is Some == self.hint_text() is Some,
            r matches Some(s) ==> Some(s@) == self.hint_text(),
    {
        match self {
            Warning::LowUniformity { .. } => Some(String::from_str("切り抜き結果を確認してください")),
            Warning::ForegroundTooSmall { .. } => Some(
                String::from_str("--tolerance を下げるか --bbox で対象を指定してください"),
            ),
            Warning::ForegroundTooLarge { .. } => Some(String::from_str("--tolerance を上げてください")),
            Warning::BboxRecommended { across, down, .. } => Some(
                String::from_str("--bbox ").concat(bbox_argument(across, down).as_str()).concat(
                    " --normalized を指定してください",
                ),
            ),
            Warning::SubjectTouchesEdge => None,
            Warning::HaloRemains { .. } => Some(
                String::from_str("--tolerance を上げると背景の残りが減ります"),
            ),
            Warning::ContourRough { .. } => None,
            Warning::RimContaminated { tolerance_helps, .. } => if tolerance_helps {
                Some(String::from_str("--tolerance を上げると背景の残りが減ります"))
            } else {
                None
            },
            Warning::NotSeparable { .. } => Some(
                String::from_str("パラメータ調整では解決しません。単色背景で撮り直してください"),
            ),
            Warning::EdgeThresholdRaised { .. } => Some(
                String::from_str("--edge-threshold を明示すれば自動調整は割り込みません"),
            ),
        }
    }
}

} // verus!

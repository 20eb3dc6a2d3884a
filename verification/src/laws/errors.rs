//! Laws of the errors.
use vstd::prelude::*;

use crate::error::{ErrorCode, ErrorKind};

verus! {

/// Every code is listed.
pub proof fn law_every_code_is_listed(code: ErrorCode)
    ensures
        ErrorCode::listed().contains(code),
{
    let all = ErrorCode::listed();
    match code {
        ErrorCode::IoError => {
            assert(all[0] == code);
        },
        ErrorCode::OutputWriteFailed => {
            assert(all[1] == code);
        },
        ErrorCode::DebugMaskWriteFailed => {
            assert(all[2] == code);
        },
        ErrorCode::AvifEncodeFailed => {
            assert(all[3] == code);
        },
        ErrorCode::PngEncodeFailed => {
            assert(all[4] == code);
        },
        ErrorCode::JpegEncodeFailed => {
            assert(all[5] == code);
        },
        ErrorCode::JsonEncodeFailed => {
            assert(all[6] == code);
        },
        ErrorCode::ThreadPoolFailed => {
            assert(all[7] == code);
        },
        ErrorCode::ManifestWriteFailed => {
            assert(all[8] == code);
        },
        ErrorCode::InvalidAngle => {
            assert(all[9] == code);
        },
        ErrorCode::InvalidBbox => {
            assert(all[10] == code);
        },
        ErrorCode::InvalidSeed => {
            assert(all[11] == code);
        },
        ErrorCode::InvalidPolygon => {
            assert(all[12] == code);
        },
        ErrorCode::ConstraintConflict => {
            assert(all[13] == code);
        },
        ErrorCode::MaskSizeMismatch => {
            assert(all[14] == code);
        },
        ErrorCode::ConstraintAllOpaque => {
            assert(all[15] == code);
        },
        ErrorCode::InvalidCanvas => {
            assert(all[16] == code);
        },
        ErrorCode::InvalidColor => {
            assert(all[17] == code);
        },
        ErrorCode::InvalidDimension => {
            assert(all[18] == code);
        },
        ErrorCode::InvalidFillRatio => {
            assert(all[19] == code);
        },
        ErrorCode::InvalidQuality => {
            assert(all[20] == code);
        },
        ErrorCode::InvalidEffort => {
            assert(all[21] == code);
        },
        ErrorCode::InvalidMaxBytes => {
            assert(all[22] == code);
        },
        ErrorCode::InvalidDerivation => {
            assert(all[23] == code);
        },
        ErrorCode::InvalidRotate => {
            assert(all[24] == code);
        },
        ErrorCode::InvalidFailOn => {
            assert(all[25] == code);
        },
        ErrorCode::UnknownProfile => {
            assert(all[26] == code);
        },
        ErrorCode::InvalidNamingTemplate => {
            assert(all[27] == code);
        },
        ErrorCode::OutputNameCollision => {
            assert(all[28] == code);
        },
        ErrorCode::InvalidSetting => {
            assert(all[29] == code);
        },
        ErrorCode::MissingDimension => {
            assert(all[30] == code);
        },
        ErrorCode::UpscaleNotAllowed => {
            assert(all[31] == code);
        },
        ErrorCode::OutputExists => {
            assert(all[32] == code);
        },
        ErrorCode::SideOutputConflict => {
            assert(all[33] == code);
        },
        ErrorCode::UnknownOutputFormat => {
            assert(all[34] == code);
        },
        ErrorCode::SpecEmpty => {
            assert(all[35] == code);
        },
        ErrorCode::SegmentUnavailable => {
            assert(all[36] == code);
        },
        ErrorCode::InputUnreadable => {
            assert(all[37] == code);
        },
        ErrorCode::InputDecodeFailed => {
            assert(all[38] == code);
        },
        ErrorCode::UnsupportedFormat => {
            assert(all[39] == code);
        },
        ErrorCode::SpecUnreadable => {
            assert(all[40] == code);
        },
        ErrorCode::SpecInvalidJson => {
            assert(all[41] == code);
        },
        ErrorCode::SpecInvalid => {
            assert(all[42] == code);
        },
        ErrorCode::SpecUnknownField => {
            assert(all[43] == code);
        },
        ErrorCode::ModelNotFound => {
            assert(all[44] == code);
        },
        ErrorCode::ModelUnreadable => {
            assert(all[45] == code);
        },
        ErrorCode::EmptyImage => {
            assert(all[46] == code);
        },
        ErrorCode::EmptyContent => {
            assert(all[47] == code);
        },
        ErrorCode::NoForeground => {
            assert(all[48] == code);
        },
        ErrorCode::ResizeFailed => {
            assert(all[49] == code);
        },
        ErrorCode::SegmentFailed => {
            assert(all[50] == code);
        },
        ErrorCode::OptimizeNoCandidate => {
            assert(all[51] == code);
        },
        ErrorCode::QualityGateFailed => {
            assert(all[52] == code);
        },
        ErrorCode::ProfileViolation => {
            assert(all[53] == code);
        },
    }
}

/// No code is listed twice.
pub proof fn law_no_code_is_listed_twice(i: int, j: int)
    requires
        0 <= i < j < ErrorCode::listed().len(),
    ensures
        ErrorCode::listed()[i] != ErrorCode::listed()[j],
{
}

/// The exit code tells the kinds apart, and none of them is that of success.
pub proof fn law_exit_codes_tell_kinds_apart(a: ErrorKind, b: ErrorKind)
    ensures
        a.exit_number() == b.exit_number() <==> a == b,
        1 <= a.exit_number() <= 5,
{
}

} // verus!

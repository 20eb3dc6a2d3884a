//! Errors, their machine-readable codes and the exit codes that follow from them.
//!
//! The kind of an error, and with it the exit code, is looked up from its code
//! alone, so one code never exits in two ways.
use vstd::prelude::*;
use vstd::string::*;

verus! {

/// The kind of an error. Each kind has its own exit code.
#[derive(Debug, Clone, Copy, PartialEq, Eq, Structural)]
pub enum ErrorKind {
    /// The failure fits no other kind.
    General,
    /// An argument is wrong.
    Argument,
    /// The input file is missing, broken or of a format that is not supported.
    Input,
    /// The work itself failed.
    Processing,
    /// The work succeeded and its results exist, but they fall short of a standard:
    /// something for a person to look at, not a failure to retry.
    Compliance,
}

impl ErrorKind {
    /// Every kind, in the order of the exit codes.
    pub fn all() -> (r: Vec<ErrorKind>)
        ensures
            r@ == seq![
                ErrorKind::General,
                ErrorKind::Argument,
                ErrorKind::Input,
                ErrorKind::Processing,
                ErrorKind::Compliance,
            ],
    {
        vec![
            ErrorKind::General,
            ErrorKind::Argument,
            ErrorKind::Input,
            ErrorKind::Processing,
            ErrorKind::Compliance,
        ]
    }

    pub open spec fn meaning_text(self) -> Seq<char> {
        match self {
            ErrorKind::General => "一般エラー"@,
            ErrorKind::Argument => "引数不正"@,
            ErrorKind::Input => "入力ファイル異常"@,
            ErrorKind::Processing => "処理失敗"@,
            ErrorKind::Compliance => "規格未達（成果物はある。人が見る対象で、結果 JSON は通常どおり返る）"@,
        }
    }

    /// What the exit code of this kind means. An argument of the wrong form or out of
    /// range is refused before it gets here: that comes without a code, on stderr
    /// alone.
    pub fn meaning(self) -> (r: &'static str)
        ensures
            r@ == self.meaning_text(),
    {
        match self {
            ErrorKind::General => "一般エラー",
            ErrorKind::Argument => "引数不正",
            ErrorKind::Input => "入力ファイル異常",
            ErrorKind::Processing => "処理失敗",
            ErrorKind::Compliance => "規格未達（成果物はある。人が見る対象で、結果 JSON は通常どおり返る）",
        }
    }

    pub open spec fn exit_number(self) -> i32 {
        match self {
            ErrorKind::General => 1,
            ErrorKind::Argument => 2,
            ErrorKind::Input => 3,
            ErrorKind::Processing => 4,
            ErrorKind::Compliance => 5,
        }
    }

    /// The exit code of the process.
    pub fn exit_code(self) -> (r: i32)
        ensures
            r == self.exit_number(),
    {
        match self {
            ErrorKind::General => 1,
            ErrorKind::Argument => 2,
            ErrorKind::Input => 3,
            ErrorKind::Processing => 4,
            ErrorKind::Compliance => 5,
        }
    }
}

/// Every error that can be reported.
#[derive(Debug, Clone, Copy, PartialEq, Eq, Structural)]
pub enum ErrorCode {
    IoError,
    OutputWriteFailed,
    DebugMaskWriteFailed,
    AvifEncodeFailed,
    PngEncodeFailed,
    JpegEncodeFailed,
    JsonEncodeFailed,
    ThreadPoolFailed,
    ManifestWriteFailed,
    InvalidAngle,
    InvalidBbox,
    InvalidSeed,
    InvalidPolygon,
    ConstraintConflict,
    MaskSizeMismatch,
    ConstraintAllOpaque,
    InvalidCanvas,
    InvalidColor,
    InvalidDimension,
    InvalidFillRatio,
    InvalidQuality,
    InvalidEffort,
    InvalidMaxBytes,
    InvalidDerivation,
    InvalidRotate,
    InvalidFailOn,
    UnknownProfile,
    InvalidNamingTemplate,
    OutputNameCollision,
    InvalidSetting,
    MissingDimension,
    UpscaleNotAllowed,
    OutputExists,
    SideOutputConflict,
    UnknownOutputFormat,
    SpecEmpty,
    SegmentUnavailable,
    InputUnreadable,
    InputDecodeFailed,
    UnsupportedFormat,
    SpecUnreadable,
    SpecInvalidJson,
    SpecInvalid,
    SpecUnknownField,
    ModelNotFound,
    ModelUnreadable,
    EmptyImage,
    EmptyContent,
    NoForeground,
    ResizeFailed,
    SegmentFailed,
    OptimizeNoCandidate,
    QualityGateFailed,
    ProfileViolation,
}

impl ErrorCode {
    pub open spec fn listed() -> Seq<ErrorCode> {
        seq![
            ErrorCode::IoError,
            ErrorCode::OutputWriteFailed,
            ErrorCode::DebugMaskWriteFailed,
            ErrorCode::AvifEncodeFailed,
            ErrorCode::PngEncodeFailed,
            ErrorCode::JpegEncodeFailed,
            ErrorCode::JsonEncodeFailed,
            ErrorCode::ThreadPoolFailed,
            ErrorCode::ManifestWriteFailed,
            ErrorCode::InvalidAngle,
            ErrorCode::InvalidBbox,
            ErrorCode::InvalidSeed,
            ErrorCode::InvalidPolygon,
            ErrorCode::ConstraintConflict,
            ErrorCode::MaskSizeMismatch,
            ErrorCode::ConstraintAllOpaque,
            ErrorCode::InvalidCanvas,
            ErrorCode::InvalidColor,
            ErrorCode::InvalidDimension,
            ErrorCode::InvalidFillRatio,
            ErrorCode::InvalidQuality,
            ErrorCode::InvalidEffort,
            ErrorCode::InvalidMaxBytes,
            ErrorCode::InvalidDerivation,
            ErrorCode::InvalidRotate,
            ErrorCode::InvalidFailOn,
            ErrorCode::UnknownProfile,
            ErrorCode::InvalidNamingTemplate,
            ErrorCode::OutputNameCollision,
            ErrorCode::InvalidSetting,
            ErrorCode::MissingDimension,
            ErrorCode::UpscaleNotAllowed,
            ErrorCode::OutputExists,
            ErrorCode::SideOutputConflict,
            ErrorCode::UnknownOutputFormat,
            ErrorCode::SpecEmpty,
            ErrorCode::SegmentUnavailable,
            ErrorCode::InputUnreadable,
            ErrorCode::InputDecodeFailed,
            ErrorCode::UnsupportedFormat,
            ErrorCode::SpecUnreadable,
            ErrorCode::SpecInvalidJson,
            ErrorCode::SpecInvalid,
            ErrorCode::SpecUnknownField,
            ErrorCode::ModelNotFound,
            ErrorCode::ModelUnreadable,
            ErrorCode::EmptyImage,
            ErrorCode::EmptyContent,
            ErrorCode::NoForeground,
            ErrorCode::ResizeFailed,
            ErrorCode::SegmentFailed,
            ErrorCode::OptimizeNoCandidate,
            ErrorCode::QualityGateFailed,
            ErrorCode::ProfileViolation,
        ]
    }

    /// Every code, grouped by kind.
    pub fn all() -> (r: Vec<ErrorCode>)
        ensures
            r@ == Self::listed(),
    {
        vec![
            ErrorCode::IoError,
            ErrorCode::OutputWriteFailed,
            ErrorCode::DebugMaskWriteFailed,
            ErrorCode::AvifEncodeFailed,
            ErrorCode::PngEncodeFailed,
            ErrorCode::JpegEncodeFailed,
            ErrorCode::JsonEncodeFailed,
            ErrorCode::ThreadPoolFailed,
            ErrorCode::ManifestWriteFailed,
            ErrorCode::InvalidAngle,
            ErrorCode::InvalidBbox,
            ErrorCode::InvalidSeed,
            ErrorCode::InvalidPolygon,
            ErrorCode::ConstraintConflict,
            ErrorCode::MaskSizeMismatch,
            ErrorCode::ConstraintAllOpaque,
            ErrorCode::InvalidCanvas,
            ErrorCode::InvalidColor,
            ErrorCode::InvalidDimension,
            ErrorCode::InvalidFillRatio,
            ErrorCode::InvalidQuality,
            ErrorCode::InvalidEffort,
            ErrorCode::InvalidMaxBytes,
            ErrorCode::InvalidDerivation,
            ErrorCode::InvalidRotate,
            ErrorCode::InvalidFailOn,
            ErrorCode::UnknownProfile,
            ErrorCode::InvalidNamingTemplate,
            ErrorCode::OutputNameCollision,
            ErrorCode::InvalidSetting,
            ErrorCode::MissingDimension,
            ErrorCode::UpscaleNotAllowed,
            ErrorCode::OutputExists,
            ErrorCode::SideOutputConflict,
            ErrorCode::UnknownOutputFormat,
            ErrorCode::SpecEmpty,
            ErrorCode::SegmentUnavailable,
            ErrorCode::InputUnreadable,
            ErrorCode::InputDecodeFailed,
            ErrorCode::UnsupportedFormat,
            ErrorCode::SpecUnreadable,
            ErrorCode::SpecInvalidJson,
            ErrorCode::SpecInvalid,
            ErrorCode::SpecUnknownField,
            ErrorCode::ModelNotFound,
            ErrorCode::ModelUnreadable,
            ErrorCode::EmptyImage,
            ErrorCode::EmptyContent,
            ErrorCode::NoForeground,
            ErrorCode::ResizeFailed,
            ErrorCode::SegmentFailed,
            ErrorCode::OptimizeNoCandidate,
            ErrorCode::QualityGateFailed,
            ErrorCode::ProfileViolation,
        ]
    }

    pub open spec fn text(self) -> Seq<char> {
        match self {
            ErrorCode::IoError => "IO_ERROR"@,
            ErrorCode::OutputWriteFailed => "OUTPUT_WRITE_FAILED"@,
            ErrorCode::DebugMaskWriteFailed => "DEBUG_MASK_WRITE_FAILED"@,
            ErrorCode::AvifEncodeFailed => "AVIF_ENCODE_FAILED"@,
            ErrorCode::PngEncodeFailed => "PNG_ENCODE_FAILED"@,
            ErrorCode::JpegEncodeFailed => "JPEG_ENCODE_FAILED"@,
            ErrorCode::JsonEncodeFailed => "JSON_ENCODE_FAILED"@,
            ErrorCode::ThreadPoolFailed => "THREAD_POOL_FAILED"@,
            ErrorCode::ManifestWriteFailed => "MANIFEST_WRITE_FAILED"@,
            ErrorCode::InvalidAngle => "INVALID_ANGLE"@,
            ErrorCode::InvalidBbox => "INVALID_BBOX"@,
            ErrorCode::InvalidSeed => "INVALID_SEED"@,
            ErrorCode::InvalidPolygon => "INVALID_POLYGON"@,
            ErrorCode::ConstraintConflict => "CONSTRAINT_CONFLICT"@,
            ErrorCode::MaskSizeMismatch => "MASK_SIZE_MISMATCH"@,
            ErrorCode::ConstraintAllOpaque => "CONSTRAINT_ALL_OPAQUE"@,
            ErrorCode::InvalidCanvas => "INVALID_CANVAS"@,
            ErrorCode::InvalidColor => "INVALID_COLOR"@,
            ErrorCode::InvalidDimension => "INVALID_DIMENSION"@,
            ErrorCode::InvalidFillRatio => "INVALID_FILL_RATIO"@,
            ErrorCode::InvalidQuality => "INVALID_QUALITY"@,
            ErrorCode::InvalidEffort => "INVALID_EFFORT"@,
            ErrorCode::InvalidMaxBytes => "INVALID_MAX_BYTES"@,
            ErrorCode::InvalidDerivation => "INVALID_DERIVATION"@,
            ErrorCode::InvalidRotate => "INVALID_ROTATE"@,
            ErrorCode::InvalidFailOn => "INVALID_FAIL_ON"@,
            ErrorCode::UnknownProfile => "UNKNOWN_PROFILE"@,
            ErrorCode::InvalidNamingTemplate => "INVALID_NAMING_TEMPLATE"@,
            ErrorCode::OutputNameCollision => "OUTPUT_NAME_COLLISION"@,
            ErrorCode::InvalidSetting => "INVALID_SETTING"@,
            ErrorCode::MissingDimension => "MISSING_DIMENSION"@,
            ErrorCode::UpscaleNotAllowed => "UPSCALE_NOT_ALLOWED"@,
            ErrorCode::OutputExists => "OUTPUT_EXISTS"@,
            ErrorCode::SideOutputConflict => "SIDE_OUTPUT_CONFLICT"@,
            ErrorCode::UnknownOutputFormat => "UNKNOWN_OUTPUT_FORMAT"@,
            ErrorCode::SpecEmpty => "SPEC_EMPTY"@,
            ErrorCode::SegmentUnavailable => "SEGMENT_UNAVAILABLE"@,
            ErrorCode::InputUnreadable => "INPUT_UNREADABLE"@,
            ErrorCode::InputDecodeFailed => "INPUT_DECODE_FAILED"@,
            ErrorCode::UnsupportedFormat => "UNSUPPORTED_FORMAT"@,
            ErrorCode::SpecUnreadable => "SPEC_UNREADABLE"@,
            ErrorCode::SpecInvalidJson => "SPEC_INVALID_JSON"@,
            ErrorCode::SpecInvalid => "SPEC_INVALID"@,
            ErrorCode::SpecUnknownField => "SPEC_UNKNOWN_FIELD"@,
            ErrorCode::ModelNotFound => "MODEL_NOT_FOUND"@,
            ErrorCode::ModelUnreadable => "MODEL_UNREADABLE"@,
            ErrorCode::EmptyImage => "EMPTY_IMAGE"@,
            ErrorCode::EmptyContent => "EMPTY_CONTENT"@,
            ErrorCode::NoForeground => "NO_FOREGROUND"@,
            ErrorCode::ResizeFailed => "RESIZE_FAILED"@,
            ErrorCode::SegmentFailed => "SEGMENT_FAILED"@,
            ErrorCode::OptimizeNoCandidate => "OPTIMIZE_NO_CANDIDATE"@,
            ErrorCode::QualityGateFailed => "QUALITY_GATE_FAILED"@,
            ErrorCode::ProfileViolation => "PROFILE_VIOLATION"@,
        }
    }

    /// The code as it appears in reports.
    pub fn as_str(self) -> (r: &'static str)
        ensures
            r@ == self.text(),
    {
        match self {
            ErrorCode::IoError => "IO_ERROR",
            ErrorCode::OutputWriteFailed => "OUTPUT_WRITE_FAILED",
            ErrorCode::DebugMaskWriteFailed => "DEBUG_MASK_WRITE_FAILED",
            ErrorCode::AvifEncodeFailed => "AVIF_ENCODE_FAILED",
            ErrorCode::PngEncodeFailed => "PNG_ENCODE_FAILED",
            ErrorCode::JpegEncodeFailed => "JPEG_ENCODE_FAILED",
            ErrorCode::JsonEncodeFailed => "JSON_ENCODE_FAILED",
            ErrorCode::ThreadPoolFailed => "THREAD_POOL_FAILED",
            ErrorCode::ManifestWriteFailed => "MANIFEST_WRITE_FAILED",
            ErrorCode::InvalidAngle => "INVALID_ANGLE",
            ErrorCode::InvalidBbox => "INVALID_BBOX",
            ErrorCode::InvalidSeed => "INVALID_SEED",
            ErrorCode::InvalidPolygon => "INVALID_POLYGON",
            ErrorCode::ConstraintConflict => "CONSTRAINT_CONFLICT",
            ErrorCode::MaskSizeMismatch => "MASK_SIZE_MISMATCH",
            ErrorCode::ConstraintAllOpaque => "CONSTRAINT_ALL_OPAQUE",
            ErrorCode::InvalidCanvas => "INVALID_CANVAS",
            ErrorCode::InvalidColor => "INVALID_COLOR",
            ErrorCode::InvalidDimension => "INVALID_DIMENSION",
            ErrorCode::InvalidFillRatio => "INVALID_FILL_RATIO",
            ErrorCode::InvalidQuality => "INVALID_QUALITY",
            ErrorCode::InvalidEffort => "INVALID_EFFORT",
            ErrorCode::InvalidMaxBytes => "INVALID_MAX_BYTES",
            ErrorCode::InvalidDerivation => "INVALID_DERIVATION",
            ErrorCode::InvalidRotate => "INVALID_ROTATE",
            ErrorCode::InvalidFailOn => "INVALID_FAIL_ON",
            ErrorCode::UnknownProfile => "UNKNOWN_PROFILE",
            ErrorCode::InvalidNamingTemplate => "INVALID_NAMING_TEMPLATE",
            ErrorCode::OutputNameCollision => "OUTPUT_NAME_COLLISION",
            ErrorCode::InvalidSetting => "INVALID_SETTING",
            ErrorCode::MissingDimension => "MISSING_DIMENSION",
            ErrorCode::UpscaleNotAllowed => "UPSCALE_NOT_ALLOWED",
            ErrorCode::OutputExists => "OUTPUT_EXISTS",
            ErrorCode::SideOutputConflict => "SIDE_OUTPUT_CONFLICT",
            ErrorCode::UnknownOutputFormat => "UNKNOWN_OUTPUT_FORMAT",
            ErrorCode::SpecEmpty => "SPEC_EMPTY",
            ErrorCode::SegmentUnavailable => "SEGMENT_UNAVAILABLE",
            ErrorCode::InputUnreadable => "INPUT_UNREADABLE",
            ErrorCode::InputDecodeFailed => "INPUT_DECODE_FAILED",
            ErrorCode::UnsupportedFormat => "UNSUPPORTED_FORMAT",
            ErrorCode::SpecUnreadable => "SPEC_UNREADABLE",
            ErrorCode::SpecInvalidJson => "SPEC_INVALID_JSON",
            ErrorCode::SpecInvalid => "SPEC_INVALID",
            ErrorCode::SpecUnknownField => "SPEC_UNKNOWN_FIELD",
            ErrorCode::ModelNotFound => "MODEL_NOT_FOUND",
            ErrorCode::ModelUnreadable => "MODEL_UNREADABLE",
            ErrorCode::EmptyImage => "EMPTY_IMAGE",
            ErrorCode::EmptyContent => "EMPTY_CONTENT",
            ErrorCode::NoForeground => "NO_FOREGROUND",
            ErrorCode::ResizeFailed => "RESIZE_FAILED",
            ErrorCode::SegmentFailed => "SEGMENT_FAILED",
            ErrorCode::OptimizeNoCandidate => "OPTIMIZE_NO_CANDIDATE",
            ErrorCode::QualityGateFailed => "QUALITY_GATE_FAILED",
            ErrorCode::ProfileViolation => "PROFILE_VIOLATION",
        }
    }

    pub open spec fn kind_of(self) -> ErrorKind {
        match self {
            ErrorCode::IoError => ErrorKind::General,
            ErrorCode::OutputWriteFailed => ErrorKind::General,
            ErrorCode::DebugMaskWriteFailed => ErrorKind::General,
            ErrorCode::AvifEncodeFailed => ErrorKind::General,
            ErrorCode::PngEncodeFailed => ErrorKind::General,
            ErrorCode::JpegEncodeFailed => ErrorKind::General,
            ErrorCode::JsonEncodeFailed => ErrorKind::General,
            ErrorCode::ThreadPoolFailed => ErrorKind::General,
            ErrorCode::ManifestWriteFailed => ErrorKind::General,
            ErrorCode::InvalidAngle => ErrorKind::Argument,
            ErrorCode::InvalidBbox => ErrorKind::Argument,
            ErrorCode::InvalidSeed => ErrorKind::Argument,
            ErrorCode::InvalidPolygon => ErrorKind::Argument,
            ErrorCode::ConstraintConflict => ErrorKind::Argument,
            ErrorCode::MaskSizeMismatch => ErrorKind::Argument,
            ErrorCode::ConstraintAllOpaque => ErrorKind::Argument,
            ErrorCode::InvalidCanvas => ErrorKind::Argument,
            ErrorCode::InvalidColor => ErrorKind::Argument,
            ErrorCode::InvalidDimension => ErrorKind::Argument,
            ErrorCode::InvalidFillRatio => ErrorKind::Argument,
            ErrorCode::InvalidQuality => ErrorKind::Argument,
            ErrorCode::InvalidEffort => ErrorKind::Argument,
            ErrorCode::InvalidMaxBytes => ErrorKind::Argument,
            ErrorCode::InvalidDerivation => ErrorKind::Argument,
            ErrorCode::InvalidRotate => ErrorKind::Argument,
            ErrorCode::InvalidFailOn => ErrorKind::Argument,
            ErrorCode::UnknownProfile => ErrorKind::Argument,
            ErrorCode::InvalidNamingTemplate => ErrorKind::Argument,
            ErrorCode::OutputNameCollision => ErrorKind::Argument,
            ErrorCode::InvalidSetting => ErrorKind::Argument,
            ErrorCode::MissingDimension => ErrorKind::Argument,
            ErrorCode::UpscaleNotAllowed => ErrorKind::Argument,
            ErrorCode::OutputExists => ErrorKind::Argument,
            ErrorCode::SideOutputConflict => ErrorKind::Argument,
            ErrorCode::UnknownOutputFormat => ErrorKind::Argument,
            ErrorCode::SpecEmpty => ErrorKind::Argument,
            ErrorCode::SegmentUnavailable => ErrorKind::Argument,
            ErrorCode::InputUnreadable => ErrorKind::Input,
            ErrorCode::InputDecodeFailed => ErrorKind::Input,
            ErrorCode::UnsupportedFormat => ErrorKind::Input,
            ErrorCode::SpecUnreadable => ErrorKind::Input,
            ErrorCode::SpecInvalidJson => ErrorKind::Input,
            ErrorCode::SpecInvalid => ErrorKind::Input,
            ErrorCode::SpecUnknownField => ErrorKind::Input,
            ErrorCode::ModelNotFound => ErrorKind::Input,
            ErrorCode::ModelUnreadable => ErrorKind::Input,
            ErrorCode::EmptyImage => ErrorKind::Processing,
            ErrorCode::EmptyContent => ErrorKind::Processing,
            ErrorCode::NoForeground => ErrorKind::Processing,
            ErrorCode::ResizeFailed => ErrorKind::Processing,
            ErrorCode::SegmentFailed => ErrorKind::Processing,
            ErrorCode::OptimizeNoCandidate => ErrorKind::Processing,
            ErrorCode::QualityGateFailed => ErrorKind::Compliance,
            ErrorCode::ProfileViolation => ErrorKind::Compliance,
        }
    }

    /// The kind of this code, which decides the exit code.
    pub fn kind(self) -> (r: ErrorKind)
        ensures
            r == self.kind_of(),
    {
        match self {
            ErrorCode::IoError => ErrorKind::General,
            ErrorCode::OutputWriteFailed => ErrorKind::General,
            ErrorCode::DebugMaskWriteFailed => ErrorKind::General,
            ErrorCode::AvifEncodeFailed => ErrorKind::General,
            ErrorCode::PngEncodeFailed => ErrorKind::General,
            ErrorCode::JpegEncodeFailed => ErrorKind::General,
            ErrorCode::JsonEncodeFailed => ErrorKind::General,
            ErrorCode::ThreadPoolFailed => ErrorKind::General,
            ErrorCode::ManifestWriteFailed => ErrorKind::General,
            ErrorCode::InvalidAngle => ErrorKind::Argument,
            ErrorCode::InvalidBbox => ErrorKind::Argument,
            ErrorCode::InvalidSeed => ErrorKind::Argument,
            ErrorCode::InvalidPolygon => ErrorKind::Argument,
            ErrorCode::ConstraintConflict => ErrorKind::Argument,
            ErrorCode::MaskSizeMismatch => ErrorKind::Argument,
            ErrorCode::ConstraintAllOpaque => ErrorKind::Argument,
            ErrorCode::InvalidCanvas => ErrorKind::Argument,
            ErrorCode::InvalidColor => ErrorKind::Argument,
            ErrorCode::InvalidDimension => ErrorKind::Argument,
            ErrorCode::InvalidFillRatio => ErrorKind::Argument,
            ErrorCode::InvalidQuality => ErrorKind::Argument,
            ErrorCode::InvalidEffort => ErrorKind::Argument,
            ErrorCode::InvalidMaxBytes => ErrorKind::Argument,
            ErrorCode::InvalidDerivation => ErrorKind::Argument,
            ErrorCode::InvalidRotate => ErrorKind::Argument,
            ErrorCode::InvalidFailOn => ErrorKind::Argument,
            ErrorCode::UnknownProfile => ErrorKind::Argument,
            ErrorCode::InvalidNamingTemplate => ErrorKind::Argument,
            ErrorCode::OutputNameCollision => ErrorKind::Argument,
            ErrorCode::InvalidSetting => ErrorKind::Argument,
            ErrorCode::MissingDimension => ErrorKind::Argument,
            ErrorCode::UpscaleNotAllowed => ErrorKind::Argument,
            ErrorCode::OutputExists => ErrorKind::Argument,
            ErrorCode::SideOutputConflict => ErrorKind::Argument,
            ErrorCode::UnknownOutputFormat => ErrorKind::Argument,
            ErrorCode::SpecEmpty => ErrorKind::Argument,
            ErrorCode::SegmentUnavailable => ErrorKind::Argument,
            ErrorCode::InputUnreadable => ErrorKind::Input,
            ErrorCode::InputDecodeFailed => ErrorKind::Input,
            ErrorCode::UnsupportedFormat => ErrorKind::Input,
            ErrorCode::SpecUnreadable => ErrorKind::Input,
            ErrorCode::SpecInvalidJson => ErrorKind::Input,
            ErrorCode::SpecInvalid => ErrorKind::Input,
            ErrorCode::SpecUnknownField => ErrorKind::Input,
            ErrorCode::ModelNotFound => ErrorKind::Input,
            ErrorCode::ModelUnreadable => ErrorKind::Input,
            ErrorCode::EmptyImage => ErrorKind::Processing,
            ErrorCode::EmptyContent => ErrorKind::Processing,
            ErrorCode::NoForeground => ErrorKind::Processing,
            ErrorCode::ResizeFailed => ErrorKind::Processing,
            ErrorCode::SegmentFailed => ErrorKind::Processing,
            ErrorCode::OptimizeNoCandidate => ErrorKind::Processing,
            ErrorCode::QualityGateFailed => ErrorKind::Compliance,
            ErrorCode::ProfileViolation => ErrorKind::Compliance,
        }
    }

    pub open spec fn summary_text(self) -> Seq<char> {
        match self {
            ErrorCode::IoError => "ファイル入出力に失敗した"@,
            ErrorCode::OutputWriteFailed => "出力先へ書き出せなかった"@,
            ErrorCode::DebugMaskWriteFailed => "--debug-mask を書き出せなかった"@,
            ErrorCode::AvifEncodeFailed => "AVIF のエンコードに失敗した"@,
            ErrorCode::PngEncodeFailed => "PNG のエンコードに失敗した"@,
            ErrorCode::JpegEncodeFailed => "JPEG のエンコードに失敗した"@,
            ErrorCode::JsonEncodeFailed => "結果を JSON にできなかった"@,
            ErrorCode::ThreadPoolFailed => "並列実行の準備に失敗した"@,
            ErrorCode::ManifestWriteFailed => "マニフェストを書き出せなかった"@,
            ErrorCode::InvalidAngle => "角度が有限な数値でない（CLI では引数検証が先に弾くため届かない）"@,
            ErrorCode::InvalidBbox => "bbox の座標が 0.0-1.0 または画像の範囲に収まらない"@,
            ErrorCode::InvalidSeed => "--fg-seed の座標が 0.0-1.0 または画像の範囲に収まらない"@,
            ErrorCode::InvalidPolygon => "--fg-polygon / --bg-polygon の座標が不正（--normalized で絶対値 2.0 超え = 画素座標の渡し違い）。3 点未満・奇数個は spec 経由でのみこの code で、CLI では clap が code 無しの exit 2 で断る"@,
            ErrorCode::ConstraintConflict => "同じ画素が確定前景と確定背景の両方に指定されている"@,
            ErrorCode::MaskSizeMismatch => "トライマップやマスク画像の寸法が入力画像と違う"@,
            ErrorCode::ConstraintAllOpaque => "--alpha-trimap に渡した画像が全画素不透明で、指示として読むと画像全体が確定前景になる（アルファを持たない JPEG などを渡した場合がこれ）"@,
            ErrorCode::InvalidCanvas => "--canvas の書式か寸法が不正"@,
            ErrorCode::InvalidColor => "色の指定が 16 進表記として解釈できない"@,
            ErrorCode::InvalidDimension => "--width / --height が不正"@,
            ErrorCode::InvalidFillRatio => "--fill-ratio が 0 より大きく 1 以下でない"@,
            ErrorCode::InvalidQuality => "--quality が 0-100 の外"@,
            ErrorCode::InvalidEffort => "--effort が 1-10 の外"@,
            ErrorCode::InvalidMaxBytes => "--max-bytes の値がバイト数として読めない（0、小数、単位の綴り違い、桁あふれ）。spec 経由でのみこの code で、CLI では clap が code 無しの exit 2 で断る。batch は 1 件の失敗で全体を止めないので、この code が出る実行の終了コードは 4 になる"@,
            ErrorCode::InvalidDerivation => "--derive の書式か値が不正（未知のキー、読めない値、sizes / formats との同時指定）。spec 経由でのみこの code で、CLI では clap が code 無しの exit 2 で断る"@,
            ErrorCode::InvalidRotate => "rotate が角度(度)の数値としても auto としても読めない。spec 経由でのみこの code で、CLI では clap が code 無しの exit 2 で断る。batch は 1 件の失敗で全体を止めないので、この code が出る実行の終了コードは 4 になる"@,
            ErrorCode::InvalidFailOn => "--fail-on の書式か値が不正（未知の指標、演算子の綴り違い、値域外、同じ指標への二重指定）。spec 経由でのみこの code で、CLI では clap が code 無しの exit 2 で断る"@,
            ErrorCode::UnknownProfile => "--profile の名前が表に無い（綴り違い、または kiri がまだ持っていない規格）。spec 経由でのみこの code で、CLI では clap が code 無しの exit 2 で断る。既知の名前は kiri schema の profiles[] と kiri cutout --help の --profile が配る"@,
            ErrorCode::InvalidNamingTemplate => "--naming のテンプレートが不正（未知の置換子、閉じていない括弧、role を持たない派生への {role}）"@,
            ErrorCode::OutputNameCollision => "2 つ以上の派生が同じ出力パスになる（書き始める前に断るので、成果物は 1 つも書かれない）"@,
            ErrorCode::InvalidSetting => "spec の設定値が不正（負値・nan・上限超過）"@,
            ErrorCode::MissingDimension => "--width も --height も指定されていない"@,
            ErrorCode::UpscaleNotAllowed => "拡大が必要だが --allow-upscale が無い"@,
            ErrorCode::OutputExists => "出力先が既に存在する。--force が要る"@,
            ErrorCode::SideOutputConflict => "--preview / --debug-mask / --manifest のパスが本出力や互いと衝突している"@,
            ErrorCode::UnknownOutputFormat => "出力形式を判別できない（拡張子、または spec の format 名）"@,
            ErrorCode::SpecEmpty => "spec に項目が 1 つも無い"@,
            ErrorCode::SegmentUnavailable => "この build には segment 機能が入っていない（--features segment で入れ直す）"@,
            ErrorCode::InputUnreadable => "入力ファイルを読めない"@,
            ErrorCode::InputDecodeFailed => "入力画像をデコードできない（破損）"@,
            ErrorCode::UnsupportedFormat => "対応していない入力形式（HEIC など）"@,
            ErrorCode::SpecUnreadable => "spec ファイルを読めない"@,
            ErrorCode::SpecInvalidJson => "spec が JSON として壊れている"@,
            ErrorCode::SpecInvalid => "spec の構造が仕様に合わない"@,
            ErrorCode::SpecUnknownField => "spec に未知のキーがある（綴り違いの疑い）"@,
            ErrorCode::ModelNotFound => "セグメンテーションモデルのファイルが置き場所に無い（kiri model list が取得手順を返す）"@,
            ErrorCode::ModelUnreadable => "モデルのファイルが壊れている（大きさが違う、ONNX として解析できない）"@,
            ErrorCode::EmptyImage => "幅か高さが 0 の画像"@,
            ErrorCode::EmptyContent => "キャンバスに載せる中身が無い"@,
            ErrorCode::NoForeground => "キャンバスに配置する前景が 1 画素も残らなかった"@,
            ErrorCode::ResizeFailed => "リサイズに失敗した"@,
            ErrorCode::SegmentFailed => "モデルは読めたが推論が通らなかった"@,
            ErrorCode::OptimizeNoCandidate => "--optimize が試せる候補を 1 つも組めなかった（3 つの軸には必ず値があるため通常は起こらない）"@,
            ErrorCode::QualityGateFailed => "--fail-on の条件に触れた。**結果 JSON は通常どおり返る**（成果物はある）。この code は errors[] ではなく compliance.code に出る"@,
            ErrorCode::ProfileViolation => "kiri lint が --profile の条件に触れた。**結果 JSON は通常どおり返る**（検査した対象のファイルはそのまま）。この code は errors[] ではなく lint の結果 JSON の code に出る"@,
        }
    }

    /// One line on what went wrong.
    pub fn summary(self) -> (r: &'static str)
        ensures
            r@ == self.summary_text(),
    {
        match self {
            ErrorCode::IoError => "ファイル入出力に失敗した",
            ErrorCode::OutputWriteFailed => "出力先へ書き出せなかった",
            ErrorCode::DebugMaskWriteFailed => "--debug-mask を書き出せなかった",
            ErrorCode::AvifEncodeFailed => "AVIF のエンコードに失敗した",
            ErrorCode::PngEncodeFailed => "PNG のエンコードに失敗した",
            ErrorCode::JpegEncodeFailed => "JPEG のエンコードに失敗した",
            ErrorCode::JsonEncodeFailed => "結果を JSON にできなかった",
            ErrorCode::ThreadPoolFailed => "並列実行の準備に失敗した",
            ErrorCode::ManifestWriteFailed => "マニフェストを書き出せなかった",
            ErrorCode::InvalidAngle => "角度が有限な数値でない（CLI では引数検証が先に弾くため届かない）",
            ErrorCode::InvalidBbox => "bbox の座標が 0.0-1.0 または画像の範囲に収まらない",
            ErrorCode::InvalidSeed => "--fg-seed の座標が 0.0-1.0 または画像の範囲に収まらない",
            ErrorCode::InvalidPolygon => "--fg-polygon / --bg-polygon の座標が不正（--normalized で絶対値 2.0 超え = 画素座標の渡し違い）。3 点未満・奇数個は spec 経由でのみこの code で、CLI では clap が code 無しの exit 2 で断る",
            ErrorCode::ConstraintConflict => "同じ画素が確定前景と確定背景の両方に指定されている",
            ErrorCode::MaskSizeMismatch => "トライマップやマスク画像の寸法が入力画像と違う",
            ErrorCode::ConstraintAllOpaque => "--alpha-trimap に渡した画像が全画素不透明で、指示として読むと画像全体が確定前景になる（アルファを持たない JPEG などを渡した場合がこれ）",
            ErrorCode::InvalidCanvas => "--canvas の書式か寸法が不正",
            ErrorCode::InvalidColor => "色の指定が 16 進表記として解釈できない",
            ErrorCode::InvalidDimension => "--width / --height が不正",
            ErrorCode::InvalidFillRatio => "--fill-ratio が 0 より大きく 1 以下でない",
            ErrorCode::InvalidQuality => "--quality が 0-100 の外",
            ErrorCode::InvalidEffort => "--effort が 1-10 の外",
            ErrorCode::InvalidMaxBytes => "--max-bytes の値がバイト数として読めない（0、小数、単位の綴り違い、桁あふれ）。spec 経由でのみこの code で、CLI では clap が code 無しの exit 2 で断る。batch は 1 件の失敗で全体を止めないので、この code が出る実行の終了コードは 4 になる",
            ErrorCode::InvalidDerivation => "--derive の書式か値が不正（未知のキー、読めない値、sizes / formats との同時指定）。spec 経由でのみこの code で、CLI では clap が code 無しの exit 2 で断る",
            ErrorCode::InvalidRotate => "rotate が角度(度)の数値としても auto としても読めない。spec 経由でのみこの code で、CLI では clap が code 無しの exit 2 で断る。batch は 1 件の失敗で全体を止めないので、この code が出る実行の終了コードは 4 になる",
            ErrorCode::InvalidFailOn => "--fail-on の書式か値が不正（未知の指標、演算子の綴り違い、値域外、同じ指標への二重指定）。spec 経由でのみこの code で、CLI では clap が code 無しの exit 2 で断る",
            ErrorCode::UnknownProfile => "--profile の名前が表に無い（綴り違い、または kiri がまだ持っていない規格）。spec 経由でのみこの code で、CLI では clap が code 無しの exit 2 で断る。既知の名前は kiri schema の profiles[] と kiri cutout --help の --profile が配る",
            ErrorCode::InvalidNamingTemplate => "--naming のテンプレートが不正（未知の置換子、閉じていない括弧、role を持たない派生への {role}）",
            ErrorCode::OutputNameCollision => "2 つ以上の派生が同じ出力パスになる（書き始める前に断るので、成果物は 1 つも書かれない）",
            ErrorCode::InvalidSetting => "spec の設定値が不正（負値・nan・上限超過）",
            ErrorCode::MissingDimension => "--width も --height も指定されていない",
            ErrorCode::UpscaleNotAllowed => "拡大が必要だが --allow-upscale が無い",
            ErrorCode::OutputExists => "出力先が既に存在する。--force が要る",
            ErrorCode::SideOutputConflict => "--preview / --debug-mask / --manifest のパスが本出力や互いと衝突している",
            ErrorCode::UnknownOutputFormat => "出力形式を判別できない（拡張子、または spec の format 名）",
            ErrorCode::SpecEmpty => "spec に項目が 1 つも無い",
            ErrorCode::SegmentUnavailable => "この build には segment 機能が入っていない（--features segment で入れ直す）",
            ErrorCode::InputUnreadable => "入力ファイルを読めない",
            ErrorCode::InputDecodeFailed => "入力画像をデコードできない（破損）",
            ErrorCode::UnsupportedFormat => "対応していない入力形式（HEIC など）",
            ErrorCode::SpecUnreadable => "spec ファイルを読めない",
            ErrorCode::SpecInvalidJson => "spec が JSON として壊れている",
            ErrorCode::SpecInvalid => "spec の構造が仕様に合わない",
            ErrorCode::SpecUnknownField => "spec に未知のキーがある（綴り違いの疑い）",
            ErrorCode::ModelNotFound => "セグメンテーションモデルのファイルが置き場所に無い（kiri model list が取得手順を返す）",
            ErrorCode::ModelUnreadable => "モデルのファイルが壊れている（大きさが違う、ONNX として解析できない）",
            ErrorCode::EmptyImage => "幅か高さが 0 の画像",
            ErrorCode::EmptyContent => "キャンバスに載せる中身が無い",
            ErrorCode::NoForeground => "キャンバスに配置する前景が 1 画素も残らなかった",
            ErrorCode::ResizeFailed => "リサイズに失敗した",
            ErrorCode::SegmentFailed => "モデルは読めたが推論が通らなかった",
            ErrorCode::OptimizeNoCandidate => "--optimize が試せる候補を 1 つも組めなかった（3 つの軸には必ず値があるため通常は起こらない）",
            ErrorCode::QualityGateFailed => "--fail-on の条件に触れた。**結果 JSON は通常どおり返る**（成果物はある）。この code は errors[] ではなく compliance.code に出る",
            ErrorCode::ProfileViolation => "kiri lint が --profile の条件に触れた。**結果 JSON は通常どおり返る**（検査した対象のファイルはそのまま）。この code は errors[] ではなく lint の結果 JSON の code に出る",
        }
    }
}

/// An error with its code, a message, and a hint on what to try next.
#[derive(Debug)]
pub struct Error {
    pub code: ErrorCode,
    pub message: String,
    pub hint: Option<String>,
}

impl Error {
    /// An error without a hint.
    ///
    /// A compliance code names a result, which is still reported in full, and
    /// so never becomes an error.
    pub fn new(code: ErrorCode, message: String) -> (e: Self)
        requires
            code.kind_of() != ErrorKind::Compliance,
        ensures
            e.code == code,
            e.message == message,
            e.hint is None,
    {
        Error { code, message, hint: None }
    }

    /// The same error with a hint.
    pub fn with_hint(self, hint: String) -> (e: Self)
        ensures
            e.code == self.code,
            e.message == self.message,
            e.hint == Some(hint),
    {
        Error { code: self.code, message: self.message, hint: Some(hint) }
    }

    pub fn kind(&self) -> (r: ErrorKind)
        ensures
            r == self.code.kind_of(),
    {
        self.code.kind()
    }

    pub fn exit_code(&self) -> (r: i32)
        ensures
            r == self.code.kind_of().exit_number(),
    {
        self.code.kind().exit_code()
    }

    pub open spec fn line(&self) -> Seq<char> {
        let start = self.code.text() + ": "@ + self.message@;
        match self.hint {
            Some(hint) => start + " ("@ + hint@ + ")"@,
            None => start,
        }
    }

    /// The error on one line: its code, its message and, in brackets, its hint.
    pub fn display(&self) -> (r: String)
        ensures
            r@ == self.line(),
    {
        let start: String = String::from_str(self.code.as_str()).concat(": ").concat(self.message.as_str());
        match &self.hint {
            Some(hint) => start.concat(" (").concat(hint.as_str()).concat(")"),
            None => start,
        }
    }
}

pub type Result<T> = std::result::Result<T, Error>;

} // verus!


use kiri::error::{Error, ErrorCode, ErrorKind};

#[test]
fn exit_codes_match_the_documented_contract() {
    assert_eq!(ErrorKind::General.exit_code(), 1);
    assert_eq!(ErrorKind::Argument.exit_code(), 2);
    assert_eq!(ErrorKind::Input.exit_code(), 3);
    assert_eq!(ErrorKind::Processing.exit_code(), 4);
    assert_eq!(ErrorKind::Compliance.exit_code(), 5);
}

#[test]
fn hint_is_included_in_display() {
    let e = Error::new(ErrorCode::InputUnreadable, String::from("見つからない"))
        .with_hint(String::from("パスを確認"));
    assert_eq!(e.display(), "INPUT_UNREADABLE: 見つからない (パスを確認)");
}

#[test]
fn an_error_without_a_hint_shows_none() {
    let e = Error::new(ErrorCode::InvalidBbox, String::from("x1 > x2"));
    assert_eq!(e.display(), "INVALID_BBOX: x1 > x2");
    assert_eq!(e.exit_code(), e.kind().exit_code());
}

#[test]
fn every_code_is_listed_once_and_named_once() {
    let all = ErrorCode::all();
    let mut names: Vec<&str> = all.iter().map(|c| c.as_str()).collect();
    let n = names.len();
    names.sort_unstable();
    names.dedup();
    assert_eq!(names.len(), n);
    assert!(all.iter().all(|c| !c.summary().is_empty()));
    let kinds = ErrorKind::all();
    let mut codes: Vec<i32> = kinds.iter().map(|k| k.exit_code()).collect();
    codes.sort_unstable();
    assert_eq!(codes, [1, 2, 3, 4, 5]);
    assert!(kinds.iter().all(|k| !k.meaning().is_empty()));
}

#[test]
fn exit_codes_mean_what_the_table_says() {
    let table: Vec<(i32, &str)> = ErrorKind::all().iter().take(4).map(|k| (k.exit_code(), k.meaning())).collect();
    assert_eq!(table, [(1, "一般エラー"), (2, "引数不正"), (3, "入力ファイル異常"), (4, "処理失敗")]);
}

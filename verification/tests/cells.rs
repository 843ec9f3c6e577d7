use freestati::cells::{cell_edit, parse_i64, CellEdit, CellType};
use freestati::json::{Json, JsonNumber};

#[test]
fn integers_read_like_std() {
    for s in ["0", "42", "-17", "+8", "007", "9223372036854775807", "-9223372036854775808", "", "-", "+", "1.5", " 3", "3 ", "9223372036854775808", "-9223372036854775809", "12a", "٣", "99999999999999999999999"] {
        assert_eq!(parse_i64(s), s.parse::<i64>().ok(), "input {s:?}");
    }
}

#[test]
fn cell_edits_by_column_type() {
    let n = |i: i64| Json::Number(JsonNumber { as_u64: u64::try_from(i).ok(), as_i64: Some(i) });
    let t = |s: &str| Json::Text(s.to_string());
    assert!(matches!(cell_edit(CellType::Integer, &n(-4)), CellEdit::Integer(Some(-4))));
    assert!(matches!(cell_edit(CellType::Integer, &t("12")), CellEdit::Integer(Some(12))));
    assert!(matches!(cell_edit(CellType::Integer, &t("x")), CellEdit::Integer(None)));
    assert!(matches!(cell_edit(CellType::Integer, &Json::Bool(true)), CellEdit::Integer(None)));
    let half = Json::Number(JsonNumber { as_u64: None, as_i64: None });
    assert!(matches!(cell_edit(CellType::Integer, &half), CellEdit::Integer(None)));
    assert!(matches!(cell_edit(CellType::Float, &t("2.5")), CellEdit::Float));
    assert!(matches!(cell_edit(CellType::Boolean, &Json::Bool(false)), CellEdit::Boolean(Some(false))));
    assert!(matches!(cell_edit(CellType::Boolean, &t("true")), CellEdit::Boolean(None)));
    assert!(matches!(cell_edit(CellType::Text, &t("abc")), CellEdit::Text(ref s) if s == "abc"));
    assert!(matches!(cell_edit(CellType::Text, &Json::Null), CellEdit::Text(ref s) if s.is_empty()));
    assert!(matches!(cell_edit(CellType::Text, &n(3)), CellEdit::JsonText));
}

use gradcheck::unit::Category;
use gradcheck::unit::Unit;
use gradcheck::unit::UnitError;
use gradcheck::unit::grade_value;
use gradcheck::unit::parse_category;
use gradcheck::unit::parse_credit;

fn s(x: &str) -> String {
    x.to_string()
}

#[test]
fn grade_table_exact() {
    assert_eq!(grade_value(&s("A+")), 43);
    assert_eq!(grade_value(&s("A")), 40);
    assert_eq!(grade_value(&s("B")), 30);
    assert_eq!(grade_value(&s("C")), 20);
    assert_eq!(grade_value(&s("D")), 0);
    assert_eq!(grade_value(&s("履修中")), -20);
    assert_eq!(grade_value(&s("F")), -10);
    assert_eq!(grade_value(&s("")), -10);
    assert_eq!(grade_value(&s("withdrawn")), -10);
}

#[test]
fn category_codes() {
    assert_eq!(parse_category(&s("A")), Some(Category::A));
    assert_eq!(parse_category(&s("B")), Some(Category::B));
    assert_eq!(parse_category(&s("C")), Some(Category::C));
    assert_eq!(parse_category(&s("C0")), Some(Category::C0));
    assert_eq!(parse_category(&s("D")), None);
    assert_eq!(parse_category(&s("")), None);
}

#[test]
fn credit_values() {
    // One type-prefix character, then a 1.0-style decimal, read in tenths.
    assert_eq!(parse_credit(&s("B1.0")), Some(10));
    assert_eq!(parse_credit(&s("A0.5")), Some(5));
    assert_eq!(parse_credit(&s("x12")), Some(120));
    assert_eq!(parse_credit(&s("B2.0")), Some(20));
    assert_eq!(parse_credit(&s("B0.0")), Some(0));
}

#[test]
fn credit_rejects() {
    assert_eq!(parse_credit(&s("")), None);
    assert_eq!(parse_credit(&s("B")), None);
    assert_eq!(parse_credit(&s("B.5")), None);
    assert_eq!(parse_credit(&s("B1.25")), None);
    assert_eq!(parse_credit(&s("Bab")), None);
    assert_eq!(parse_credit(&s("B1.")), None);
    assert_eq!(parse_credit(&s("B99999999999")), None);
}

fn row() -> Vec<String> {
    vec![
        s("2024"),
        s("x"),
        s("GB10001"),
        s("Algorithms"),
        s("B2.0"),
        s("x"),
        s("x"),
        s("A"),
        s("A"),
        s("2024"),
        s("x"),
    ]
}

#[test]
fn row_parses() {
    let u = Unit::new(&row()).unwrap();
    assert_eq!(u.unit_id, s("GB10001"));
    assert_eq!(u.unit_name, s("Algorithms"));
    assert_eq!(u.unit_num, 20);
    assert_eq!(u.grade_num, 40);
    assert_eq!(u.unit_group, Category::A);
    assert_eq!(u.year, s("2024"));
}

#[test]
fn row_with_ten_fields_is_fatal() {
    let mut fields = row();
    fields.pop();
    assert_eq!(fields.len(), 10);
    assert!(matches!(Unit::new(&fields), Err(UnitError::WrongFieldCount)));
}

#[test]
fn row_with_twelve_fields_is_fatal() {
    let mut fields = row();
    fields.push(s("extra"));
    assert!(matches!(Unit::new(&fields), Err(UnitError::WrongFieldCount)));
}

#[test]
fn row_with_bad_credit_is_fatal() {
    let mut fields = row();
    fields[4] = s("Bx.0");
    assert!(matches!(Unit::new(&fields), Err(UnitError::BadCredit)));
    fields[4] = s("B0.0");
    assert!(matches!(Unit::new(&fields), Err(UnitError::BadCredit)));
    fields[4] = s("");
    assert!(matches!(Unit::new(&fields), Err(UnitError::BadCredit)));
}

#[test]
fn row_with_bad_category_is_fatal() {
    let mut fields = row();
    fields[8] = s("Z");
    assert!(matches!(Unit::new(&fields), Err(UnitError::BadCategory)));
}

#[test]
fn row_in_progress_grade() {
    let mut fields = row();
    fields[7] = s("履修中");
    let u = Unit::new(&fields).unwrap();
    assert_eq!(u.grade_num, -20);
}

use gradcheck::unit::Category;
use gradcheck::unit::Unit;
use gradcheck::user::User;

fn unit(credit: u32, grade: i32, group: Category) -> Unit {
    Unit {
        unit_id: "GB1".to_string(),
        unit_name: "Course".to_string(),
        unit_num: credit,
        grade_num: grade,
        unit_group: group,
        year: "2024".to_string(),
    }
}

#[test]
fn gpa_two_records() {
    // Credit 2.0 at grade A (4.0) and credit 1.0 at grade B (3.0):
    // weighted sum 11.0, total credit 3.0, average 3.6666.
    let u = User::new(vec![unit(20, 40, Category::A), unit(10, 30, Category::A)]);
    assert_eq!(u.gps, 1100);
    assert_eq!(u.total_credit, 30);
    assert_eq!(u.gpa, Some(36666));
}

#[test]
fn related_category_is_excluded() {
    let u = User::new(vec![
        unit(20, 40, Category::A),
        unit(100, 43, Category::C0),
    ]);
    assert_eq!(u.gps, 800);
    assert_eq!(u.total_credit, 20);
    assert_eq!(u.gpa, Some(40000));
}

#[test]
fn unfinalized_grades_are_excluded() {
    // In-progress (-2.0) and unrecognized (-1.0) never count; a failing
    // D (0.0) counts toward the credit but adds no grade points.
    let u = User::new(vec![
        unit(20, -20, Category::A),
        unit(20, -10, Category::B),
        unit(10, 0, Category::A),
        unit(10, 40, Category::A),
    ]);
    assert_eq!(u.gps, 400);
    assert_eq!(u.total_credit, 20);
    assert_eq!(u.gpa, Some(20000));
}

#[test]
fn no_graded_credit_means_no_average() {
    let u = User::new(vec![unit(20, -20, Category::A), unit(10, 40, Category::C0)]);
    assert_eq!(u.gps, 0);
    assert_eq!(u.total_credit, 0);
    assert_eq!(u.gpa, None);

    let empty = User::new(Vec::new());
    assert_eq!(empty.gpa, None);
}

#[test]
fn partition_by_category() {
    let u = User::new(vec![
        unit(10, 40, Category::A),
        unit(10, 40, Category::B),
        unit(10, 40, Category::C),
        unit(10, 40, Category::C0),
        unit(10, 40, Category::B),
    ]);
    assert_eq!(u.units_a.len(), 1);
    assert_eq!(u.units_b.len(), 2);
    assert_eq!(u.units_c.len(), 1);
    assert_eq!(u.units_c0.len(), 1);
}

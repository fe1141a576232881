use gradcheck::unit::Category;
use gradcheck::unit::Unit;
use gradcheck::unitgroup::batch_passing_credit;
use gradcheck::unitgroup::UnitGroup;
use gradcheck::unitgroup::UnitGroupMap;

fn unit(id: &str, name: &str, credit: u32, grade: i32) -> Unit {
    Unit {
        unit_id: id.to_string(),
        unit_name: name.to_string(),
        unit_num: credit,
        grade_num: grade,
        unit_group: Category::A,
        year: "2024".to_string(),
    }
}

fn map_with(rules: Vec<UnitGroup>) -> UnitGroupMap {
    let mut m = UnitGroupMap::new("spec");
    for r in rules {
        m.add_group(r);
    }
    m
}

#[test]
fn bad_pattern_is_refused() {
    assert!(UnitGroup::group_name("broken", "(", false).is_none());
    assert!(UnitGroup::group_id("broken", "[", false).is_none());
    assert!(UnitGroup::group_name("fine", "^GB1", false).is_some());
}

#[test]
fn name_pattern_is_really_matched() {
    // A matcher that ignored its pattern, or its text, would fail here.
    let mut m = map_with(vec![UnitGroup::group_name("alg", "^Algo", false).unwrap()]);
    let un = m.push_units(vec![
        unit("GB1", "Algorithms", 10, 40),
        unit("GB2", "Compilers", 10, 40),
        unit("GB3", "NotAlgo", 10, 40),
    ]);
    assert_eq!(m.sums.get("alg"), 10);
    assert_eq!(un.len(), 2);
    assert_eq!(un[0].unit_name, "Compilers");
    assert_eq!(un[1].unit_name, "NotAlgo");
}

#[test]
fn id_pattern_matches_course_id() {
    let mut m = map_with(vec![UnitGroup::group_id("gb", "^GB2", false).unwrap()]);
    let un = m.push_units(vec![
        unit("GB20001", "Anything", 15, 30),
        unit("GA20001", "GB20001", 10, 30),
    ]);
    // The id rule must look at the id field, not the name field.
    assert_eq!(m.sums.get("gb"), 15);
    assert_eq!(un.len(), 1);
    assert_eq!(un[0].unit_id, "GA20001");
}

#[test]
fn earlier_rule_wins() {
    // Both rules match "Linear Algebra"; only the earlier one is credited.
    let mut m = map_with(vec![
        UnitGroup::group_name("first", "Algebra", false).unwrap(),
        UnitGroup::group_name("second", "^Linear", false).unwrap(),
    ]);
    let un = m.push_units(vec![unit("GB1", "Linear Algebra", 20, 40)]);
    assert!(un.is_empty());
    assert_eq!(m.sums.get("first"), 20);
    assert_eq!(m.sums.get("second"), 0);
}

#[test]
fn catch_all_comes_last() {
    let mut m = map_with(vec![
        UnitGroup::group_name("pe", "Sports", true).unwrap(),
        UnitGroup::group_none("rest", false),
    ]);
    let un = m.push_units(vec![
        unit("GA1", "Sports Day", 10, 30),
        unit("GA2", "History", 20, 20),
    ]);
    assert!(un.is_empty());
    assert_eq!(m.sums.get("pe"), 10);
    assert_eq!(m.sums.get("rest"), 20);
}

#[test]
fn non_passing_grades_add_no_credit() {
    let mut m = map_with(vec![UnitGroup::group_none("all", false)]);
    let un = m.push_units(vec![
        unit("GA1", "Failed", 10, 0),
        unit("GA2", "InProgress", 10, -20),
        unit("GA3", "Other", 10, -10),
        unit("GA4", "Passed", 10, 20),
    ]);
    assert!(un.is_empty());
    assert_eq!(m.sums.get("all"), 10);
}

#[test]
fn credit_is_conserved() {
    // Passing credit lands either in a rule's sum or on an unmatched
    // record, never both, never nowhere.
    let mut m = map_with(vec![
        UnitGroup::group_name("a", "^A", false).unwrap(),
        UnitGroup::group_name("b", "^B", false).unwrap(),
    ]);
    let units = vec![
        unit("1", "Apples", 10, 40),
        unit("2", "Bread", 15, 30),
        unit("3", "Cheese", 20, 20),
        unit("4", "Beans", 5, 0),
        unit("5", "Apricots", 10, 43),
    ];
    let passing_total: u64 = units
        .iter()
        .filter(|u| u.grade_num > 0)
        .map(|u| u.unit_num as u64)
        .sum();
    let un = m.push_units(units);
    let unmatched_passing: u64 = un
        .iter()
        .filter(|u| u.grade_num > 0)
        .map(|u| u.unit_num as u64)
        .sum();
    let table_total = m.sums.get("a") + m.sums.get("b");
    assert_eq!(table_total + unmatched_passing, passing_total);
    // "Beans" starts with B too, but its grade does not pass.
    assert_eq!(m.sums.get("a"), 20);
    assert_eq!(m.sums.get("b"), 15);
    assert_eq!(un.len(), 1);
    assert_eq!(un[0].unit_name, "Cheese");
}

#[test]
fn classification_is_deterministic() {
    let build = || {
        map_with(vec![
            UnitGroup::group_name("x", "a", false).unwrap(),
            UnitGroup::group_none("rest", false),
        ])
    };
    let batch = || {
        vec![
            unit("1", "banana", 10, 40),
            unit("2", "cherry", 20, 30),
            unit("3", "fig", 5, 20),
        ]
    };
    let mut m1 = build();
    let mut m2 = build();
    m1.push_units(batch());
    m2.push_units(batch());
    for name in ["x", "rest"] {
        assert_eq!(m1.sums.get(name), m2.sums.get(name));
    }
    assert_eq!(m1.sums.get("x"), 10);
    assert_eq!(m1.sums.get("rest"), 25);
}

#[test]
fn missing_required_rule_is_reported() {
    let mut m = map_with(vec![
        UnitGroup::group_name("thesis", "^Graduation Research", true).unwrap(),
        UnitGroup::group_none("rest", false),
    ]);
    let un = m.push_units(vec![unit("GA1", "History", 20, 40)]);
    // The run went on: the record was classified, nothing was aborted.
    assert!(un.is_empty());
    assert_eq!(m.sums.get("rest"), 20);
    // The required rule matched nothing: reported, and its sum is zero.
    let missing = m.missing_required();
    assert_eq!(missing.len(), 1);
    assert_eq!(missing[0], "thesis");
    assert_eq!(m.sums.get("thesis"), 0);
}

#[test]
fn batch_passing_credit_counts_passing_only() {
    let units = vec![
        unit("1", "a", 10, 40),
        unit("2", "b", 20, 0),
        unit("3", "c", 5, -20),
        unit("4", "d", 15, 20),
    ];
    assert_eq!(batch_passing_credit(&units), Some(25));
    assert_eq!(batch_passing_credit(&Vec::new()), Some(0));
}

#[test]
fn table_total_sums_every_entry() {
    let mut m = map_with(vec![
        UnitGroup::group_name("a", "^A", false).unwrap(),
        UnitGroup::group_none("rest", false),
    ]);
    assert_eq!(m.sums.total(), Some(0));
    m.push_units(vec![unit("1", "Apples", 10, 40), unit("2", "Bread", 25, 30)]);
    assert_eq!(m.sums.total(), Some(35));
}

#[test]
fn matched_records_are_kept_per_rule() {
    let mut m = map_with(vec![
        UnitGroup::group_name("a", "^A", true).unwrap(),
        UnitGroup::group_none("rest", false),
    ]);
    m.push_units(vec![
        unit("1", "Apples", 10, 40),
        unit("2", "Bread", 10, 40),
        unit("3", "Apricots", 10, -20),
    ]);
    assert_eq!(m.groups[0].units.len(), 2);
    assert_eq!(m.groups[0].units[0].unit_name, "Apples");
    assert_eq!(m.groups[0].units[1].unit_name, "Apricots");
    assert_eq!(m.groups[1].units.len(), 1);
    assert!(m.missing_required().is_empty());
}

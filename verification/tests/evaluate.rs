use gradcheck::require::Req;
use gradcheck::require::Verdict;
use gradcheck::sums::CreditSums;

fn leaf(desc: &str, min: u32, max: Option<u32>, buckets: Vec<(&str, Option<u32>)>) -> Req {
    Req {
        desc: desc.to_string(),
        subreqs: Vec::new(),
        groups: buckets
            .into_iter()
            .map(|(n, c)| (n.to_string(), c))
            .collect(),
        min,
        max,
    }
}

fn sums(entries: Vec<(&str, u64)>) -> CreditSums {
    let mut s = CreditSums::new();
    for (name, amount) in entries {
        s.add(name, amount);
    }
    s
}

#[test]
fn node_cap_clamps_only_the_parent_value() {
    // A child contributing 10.0 credits under a 4.0-credit cap: the parent
    // sees exactly 4.0, while the child's own verdict still compares the
    // pre-cap total 10.0 against its minimum.
    let child = leaf("electives", 60, Some(40), vec![("free", None)]);
    let parent = Req {
        desc: "total".to_string(),
        subreqs: vec![child],
        groups: Vec::new(),
        min: 40,
        max: None,
    };
    let table = sums(vec![("free", 100)]);
    let mut report: Vec<Verdict> = Vec::new();
    let got = parent.check_req(&table, &mut report);
    assert_eq!(got, 40);
    assert_eq!(report.len(), 2);
    // Child line first: pre-cap total, compared against the child minimum.
    assert_eq!(report[0].desc, "electives");
    assert_eq!(report[0].total, 100);
    assert_eq!(report[0].min, 60);
    assert!(report[0].passed);
    // Parent line sees only the capped 4.0 from the child.
    assert_eq!(report[1].desc, "total");
    assert_eq!(report[1].total, 40);
    assert_eq!(report[1].min, 40);
    assert!(report[1].passed);
}

#[test]
fn per_bucket_caps_clamp_each_read() {
    let node = leaf(
        "common electives",
        10,
        None,
        vec![("acfnd", None), ("arts", Some(40))],
    );
    let table = sums(vec![("acfnd", 15), ("arts", 90)]);
    let mut report: Vec<Verdict> = Vec::new();
    let got = node.check_req(&table, &mut report);
    assert_eq!(got, 15 + 40);
    assert_eq!(report.len(), 1);
    assert!(report[0].passed);
}

#[test]
fn absent_bucket_reads_as_zero() {
    let node = leaf("nothing yet", 10, None, vec![("nowhere", None)]);
    let table = CreditSums::new();
    let mut report: Vec<Verdict> = Vec::new();
    let got = node.check_req(&table, &mut report);
    assert_eq!(got, 0);
    assert_eq!(report[0].total, 0);
    assert!(!report[0].passed);
}

#[test]
fn verdict_fails_strictly_below_minimum() {
    let node = leaf("exact", 30, None, vec![("b", None)]);
    let table = sums(vec![("b", 30)]);
    let mut report: Vec<Verdict> = Vec::new();
    node.check_req(&table, &mut report);
    assert!(report[0].passed);

    let short = sums(vec![("b", 29)]);
    let mut report2: Vec<Verdict> = Vec::new();
    node.check_req(&short, &mut report2);
    assert!(!report2[0].passed);
}

#[test]
fn overflowing_total_is_refused() {
    // Two uncapped reads of a bucket at the machine-word limit cannot be
    // summed; the checked evaluator says so instead of wrapping.
    let node = leaf("too big", 0, None, vec![("huge", None), ("huge", None)]);
    let table = sums(vec![("huge", u64::MAX)]);
    let mut report: Vec<Verdict> = Vec::new();
    assert_eq!(node.try_check_req(&table, &mut report), None);

    let fine = leaf("fits", 0, None, vec![("huge", None)]);
    let mut report2: Vec<Verdict> = Vec::new();
    assert_eq!(fine.try_check_req(&table, &mut report2), Some(u64::MAX));
}

#[test]
fn nested_tree_sums_depth_first() {
    let spec_a = leaf("GBn0", 180, None, vec![("gbn0", None)]);
    let spec_b = leaf("GBn", 0, Some(180), vec![("gbn", None)]);
    let parent = Req {
        desc: "major electives".to_string(),
        subreqs: vec![spec_a, spec_b],
        groups: Vec::new(),
        min: 360,
        max: None,
    };
    let table = sums(vec![("gbn0", 200), ("gbn", 250)]);
    let mut report: Vec<Verdict> = Vec::new();
    let got = parent.check_req(&table, &mut report);
    // gbn is capped at 18.0; gbn0 flows through uncapped.
    assert_eq!(got, 200 + 180);
    assert_eq!(report.len(), 3);
    assert_eq!(report[0].desc, "GBn0");
    assert_eq!(report[1].desc, "GBn");
    assert_eq!(report[1].total, 250);
    assert_eq!(report[2].desc, "major electives");
    assert_eq!(report[2].total, 380);
    assert!(report[2].passed);
}

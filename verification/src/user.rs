//! The credit / GPA accumulator: partitions a transcript by category and
//! computes the weighted grade-point sum, total graded credit and
//! grade-point average.
//!
//! The related-foundational category (`C0`) is excluded from the average by
//! policy, and only finalized grades count: passing or failing, but not
//! in-progress or withdrawn records.

use vstd::prelude::*;

use vstd::arithmetic::div_mod::lemma_div_is_ordered;
use vstd::arithmetic::div_mod::lemma_div_multiples_vanish;
use vstd::arithmetic::mul::lemma_mul_inequality;

use crate::unit::Category;
use crate::unit::Unit;
use crate::unit::unit_wf;

verus! {

/// Whether a record counts toward the grade-point average.
pub open spec fn counts_for_gpa(u: Unit) -> bool {
    u.unit_group != Category::C0 && u.grade_num >= 0
}

/// The weighted grade-point sum in hundredths: credit (tenths) times grade
/// value (tenths), over the records that count toward the average.
pub open spec fn gps_sum(us: Seq<Unit>) -> int
    decreases us.len(),
{
    if us.len() == 0 {
        0
    } else {
        gps_sum(us.drop_last()) + if counts_for_gpa(us.last()) {
            (us.last().unit_num as int) * (us.last().grade_num as int)
        } else {
            0
        }
    }
}

/// The total graded credit in tenths, over the records that count toward
/// the average.
pub open spec fn graded_credit(us: Seq<Unit>) -> int
    decreases us.len(),
{
    if us.len() == 0 {
        0
    } else {
        graded_credit(us.drop_last()) + if counts_for_gpa(us.last()) {
            us.last().unit_num as int
        } else {
            0
        }
    }
}

/// Every record is well-formed.
pub open spec fn all_wf(us: Seq<Unit>) -> bool {
    forall|i: int| 0 <= i < us.len() ==> unit_wf(us[i])
}

/// The records of one category, in order.
pub open spec fn cat_units(us: Seq<Unit>, c: Category) -> Seq<Unit>
    decreases us.len(),
{
    if us.len() == 0 {
        Seq::<Unit>::empty()
    } else {
        let rest = cat_units(us.drop_last(), c);
        if us.last().unit_group == c {
            rest.push(us.last())
        } else {
            rest
        }
    }
}

proof fn lemma_gpa_first(us: Seq<Unit>)
    requires
        us.len() > 0,
    ensures
        gps_sum(us) == (if counts_for_gpa(us.first()) {
            (us.first().unit_num as int) * (us.first().grade_num as int)
        } else {
            0
        }) + gps_sum(us.drop_first()),
        graded_credit(us) == (if counts_for_gpa(us.first()) {
            us.first().unit_num as int
        } else {
            0
        }) + graded_credit(us.drop_first()),
    decreases us.len(),
{
    if us.len() == 1 {
        assert(us.drop_last() =~= Seq::<Unit>::empty());
        assert(us.drop_first() =~= Seq::<Unit>::empty());
        assert(us.last() == us.first());
    } else {
        lemma_gpa_first(us.drop_last());
        assert(us.drop_last().first() == us.first());
        assert(us.drop_first().drop_last() =~= us.drop_last().drop_first());
        assert(us.drop_first().last() == us.last());
    }
}

/// Over well-formed records the weighted sum is nonnegative and at most
/// the largest grade value times the graded credit.
pub proof fn lemma_gps_bounds(us: Seq<Unit>)
    requires
        all_wf(us),
    ensures
        0 <= graded_credit(us),
        0 <= gps_sum(us) <= 43 * graded_credit(us),
    decreases us.len(),
{
    if us.len() > 0 {
        assert(all_wf(us.drop_last()));
        lemma_gps_bounds(us.drop_last());
        let u = us.last();
        assert(unit_wf(us[us.len() - 1]));
        if counts_for_gpa(u) {
            lemma_mul_inequality(u.grade_num as int, 43, u.unit_num as int);
        }
    }
}

proof fn lemma_graded_credit_nonneg(us: Seq<Unit>)
    ensures
        graded_credit(us) >= 0,
    decreases us.len(),
{
    if us.len() > 0 {
        lemma_graded_credit_nonneg(us.drop_last());
    }
}

/// Whether a batch is small enough for the accumulator's arithmetic: the
/// largest grade value times the total graded credit fits the machine
/// word. A caller holds this before asking for the grade-point figures.
pub fn gpa_fits(units: &Vec<Unit>) -> (r: bool)
    ensures
        r == (43 * graded_credit(units@) <= u64::MAX),
{
    let n = units.len();
    let mut acc: u64 = 0;
    let mut i: usize = 0;
    proof {
        assert(units@.skip(0) =~= units@);
    }
    while i < n
        invariant
            0 <= i <= n,
            n == units@.len(),
            graded_credit(units@) == acc + graded_credit(units@.skip(i as int)),
        decreases n - i,
    {
        let ghost rest = units@.skip(i as int);
        proof {
            lemma_gpa_first(rest);
            assert(rest.first() == units@[i as int]);
            assert(rest.drop_first() =~= units@.skip(i as int + 1));
            lemma_graded_credit_nonneg(rest.drop_first());
        }
        let u = &units[i];
        if u.unit_group != Category::C0 && u.grade_num >= 0 {
            let v: u64 = u.unit_num as u64;
            if acc > u64::MAX - v {
                return false;
            }
            acc = acc + v;
        }
        i = i + 1;
    }
    proof {
        assert(units@.skip(n as int) =~= Seq::<Unit>::empty());
    }
    (acc as u128) * 43 <= u64::MAX as u128
}

/// One student's transcript, partitioned by category, with the overall
/// grade-point figures.
pub struct User {
    pub units_a: Vec<Unit>,
    pub units_b: Vec<Unit>,
    pub units_c: Vec<Unit>,
    pub units_c0: Vec<Unit>,
    /// The raw weighted grade-point sum, in hundredths.
    pub gps: u64,
    /// The total graded credit, in tenths of a credit.
    pub total_credit: u64,
    /// The grade-point average scaled by ten thousand, or `None` when no
    /// credit counts toward the average at all.
    pub gpa: Option<u64>,
}

impl User {
    /// Partitions the records into the four categories and accumulates the
    /// grade-point figures. The average is the weighted sum over the total
    /// graded credit; with no graded credit there is no average, stated
    /// explicitly as `None` rather than a division by zero.
    pub fn new(units: Vec<Unit>) -> (r: User)
        requires
            all_wf(units@),
            43 * graded_credit(units@) <= u64::MAX,
        ensures
            r.units_a@ == cat_units(units@, Category::A),
            r.units_b@ == cat_units(units@, Category::B),
            r.units_c@ == cat_units(units@, Category::C),
            r.units_c0@ == cat_units(units@, Category::C0),
            r.gps as int == gps_sum(units@),
            r.total_credit as int == graded_credit(units@),
            r.gpa is None <==> graded_credit(units@) == 0,
            r.gpa matches Some(g) ==> g as int == gps_sum(units@) * 1000 / graded_credit(units@)
                && g <= 43000,
    {
        let ghost all = units@;
        let mut units = units;
        let mut units_a: Vec<Unit> = Vec::new();
        let mut units_b: Vec<Unit> = Vec::new();
        let mut units_c: Vec<Unit> = Vec::new();
        let mut units_c0: Vec<Unit> = Vec::new();
        let mut gps: u64 = 0;
        let mut total: u64 = 0;
        let ghost mut k: int = 0;
        proof {
            assert(all.subrange(0, 0) =~= Seq::<Unit>::empty());
            assert(all.skip(0) =~= all);
        }
        while units.len() > 0
            invariant
                0 <= k <= all.len(),
                units@ == all.skip(k),
                all_wf(all),
                43 * graded_credit(all) <= u64::MAX,
                units_a@ == cat_units(all.subrange(0, k), Category::A),
                units_b@ == cat_units(all.subrange(0, k), Category::B),
                units_c@ == cat_units(all.subrange(0, k), Category::C),
                units_c0@ == cat_units(all.subrange(0, k), Category::C0),
                gps as int == gps_sum(all.subrange(0, k)),
                total as int == graded_credit(all.subrange(0, k)),
                graded_credit(all.subrange(0, k)) + graded_credit(all.skip(k)) == graded_credit(
                    all,
                ),
                gps_sum(all.subrange(0, k)) + 43 * graded_credit(all.skip(k)) <= u64::MAX,
            decreases units@.len(),
        {
            let ghost pre = all.subrange(0, k);
            let ghost post = all.subrange(0, k + 1);
            let u = units.remove(0);
            proof {
                assert(u == all.skip(k)[0]);
                assert(u == all[k]);
                assert(units@ =~= all.skip(k + 1));
                assert(post.drop_last() =~= pre);
                assert(post.last() == u);
                lemma_gpa_first(all.skip(k));
                assert(all.skip(k).first() == u);
                assert(all.skip(k).drop_first() =~= all.skip(k + 1));
                assert(all_wf(all.skip(k + 1))) by {
                    assert forall|i: int| 0 <= i < all.skip(k + 1).len() implies #[trigger]
                    unit_wf(all.skip(k + 1)[i]) by {
                        assert(all.skip(k + 1)[i] == all[k + 1 + i]);
                    }
                }
                lemma_gps_bounds(all.skip(k + 1));
                assert(unit_wf(all[k]));
            }
            if u.unit_group != Category::C0 && u.grade_num >= 0 {
                proof {
                    lemma_mul_inequality(u.grade_num as int, 43, u.unit_num as int);
                }
                let credit: u64 = u.unit_num as u64;
                let grade: u64 = u.grade_num as u64;
                let term: u64 = credit * grade;
                gps = gps + term;
                total = total + credit;
            }
            match u.unit_group {
                Category::A => units_a.push(u),
                Category::B => units_b.push(u),
                Category::C => units_c.push(u),
                Category::C0 => units_c0.push(u),
            }
            proof {
                k = k + 1;
            }
        }
        proof {
            assert(all.skip(k).len() == 0);
            assert(k == all.len());
            assert(all.subrange(0, k) =~= all);
        }
        let gpa: Option<u64> = if total == 0 {
            None
        } else {
            proof {
                lemma_gps_bounds(all);
                lemma_mul_inequality(gps_sum(all), 43 * graded_credit(all), 1000);
                lemma_div_is_ordered(
                    gps_sum(all) * 1000,
                    43000 * graded_credit(all),
                    graded_credit(all),
                );
                lemma_div_multiples_vanish(43000, graded_credit(all));
                assert(graded_credit(all) * 43000 == 43000 * graded_credit(all));
                assert(gps_sum(all) * 1000 / graded_credit(all) <= 43000);
            }
            let q: u64 = ((gps as u128) * 1000 / (total as u128)) as u64;
            Some(q)
        };
        User { units_a, units_b, units_c, units_c0, gps, total_credit: total, gpa }
    }
}

} // verus!

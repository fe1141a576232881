//! The requirement tree: nested minimum-credit thresholds over the credit
//! sum table, with optional per-bucket and per-node caps.
//!
//! A node's total is the sum of its children's contributions and its bucket
//! reads, each bucket clamped to its per-bucket cap. The node's own verdict
//! compares that pre-cap total against the minimum; the node's cap clamps
//! only the value passed upward to the parent.

use vstd::prelude::*;

use crate::sums::CreditSums;
use crate::sums::SumsView;
use crate::sums::lookup;
use crate::sums::nonneg;
use crate::sums::lemma_lookup_le_total;

verus! {

/// One requirement node: a description, a minimum threshold, an optional
/// cap on what it contributes upward, bucket references with optional
/// per-bucket caps, and sub-requirements. All credit is in tenths.
pub struct Req {
    pub desc: String,
    pub subreqs: Vec<Req>,
    /// Referenced buckets: (rule name, optional per-bucket cap in tenths).
    pub groups: Vec<(String, Option<u32>)>,
    /// The minimum credit this requirement asks for, in tenths.
    pub min: u32,
    /// The most credit this node passes to its parent, in tenths.
    pub max: Option<u32>,
}

/// One report line: a node's pre-cap total held against its minimum.
pub struct Verdict {
    pub desc: String,
    /// The node's own total before its cap is applied, in tenths.
    pub total: u64,
    /// The minimum threshold, in tenths.
    pub min: u32,
    /// Pass exactly when `total >= min`.
    pub passed: bool,
}

/// What one bucket reference contributes: the bucket's sum, clamped to the
/// per-bucket cap when one is set.
pub open spec fn bucket_take(t: SumsView, g: (String, Option<u32>)) -> int {
    let s = lookup(t, g.0@);
    match g.1 {
        Some(c) => if s > c {
            c as int
        } else {
            s
        },
        None => s,
    }
}

/// The contribution of the first `n` bucket references.
pub open spec fn buckets_total(t: SumsView, gs: Seq<(String, Option<u32>)>, n: int) -> int
    decreases n,
{
    if n <= 0 {
        0
    } else {
        buckets_total(t, gs, n - 1) + bucket_take(t, gs[n - 1])
    }
}

/// A node's own total before its cap: the children's capped contributions
/// plus the bucket reads.
pub open spec fn eval_total(r: Req, t: SumsView) -> int
    decreases r, 1int, 0int,
{
    children_total(r.subreqs@, t, r.subreqs@.len() as int) + buckets_total(
        t,
        r.groups@,
        r.groups@.len() as int,
    )
}

/// The sum of the first `n` children's contributions.
pub open spec fn children_total(rs: Seq<Req>, t: SumsView, n: int) -> int
    decreases rs, 0int, n,
{
    if n <= 0 || n > rs.len() {
        0
    } else {
        children_total(rs, t, n - 1) + eval(rs[n - 1], t)
    }
}

/// What a node contributes to its parent: its total, clamped to its cap.
pub open spec fn eval(r: Req, t: SumsView) -> int
    decreases r, 1int, 1int,
{
    match r.max {
        Some(m) => if eval_total(r, t) > m {
            m as int
        } else {
            eval_total(r, t)
        },
        None => eval_total(r, t),
    }
}

/// The report line a node emits.
pub open spec fn verdict_of(r: Req, t: SumsView) -> Verdict {
    Verdict {
        desc: r.desc,
        total: eval_total(r, t) as u64,
        min: r.min,
        passed: eval_total(r, t) >= r.min,
    }
}

/// The report a node emits: its children's reports, depth-first and in
/// order, then its own line.
pub open spec fn report_of(r: Req, t: SumsView) -> Seq<Verdict>
    decreases r, 1int, 0int,
{
    children_reports(r.subreqs@, t, r.subreqs@.len() as int).push(verdict_of(r, t))
}

/// The reports of the first `n` children, concatenated in order.
pub open spec fn children_reports(rs: Seq<Req>, t: SumsView, n: int) -> Seq<Verdict>
    decreases rs, 0int, n,
{
    if n <= 0 || n > rs.len() {
        Seq::<Verdict>::empty()
    } else {
        children_reports(rs, t, n - 1) + report_of(rs[n - 1], t)
    }
}

/// Whether every node total in the tree fits the machine word.
pub open spec fn fits(r: Req, t: SumsView) -> bool
    decreases r, 1int, 0int,
{
    eval_total(r, t) <= u64::MAX && children_fit(r.subreqs@, t, r.subreqs@.len() as int)
}

pub open spec fn children_fit(rs: Seq<Req>, t: SumsView, n: int) -> bool
    decreases rs, 0int, n,
{
    if n <= 0 || n > rs.len() {
        true
    } else {
        children_fit(rs, t, n - 1) && fits(rs[n - 1], t)
    }
}

proof fn lemma_children_fit_index(rs: Seq<Req>, t: SumsView, n: int, i: int)
    requires
        children_fit(rs, t, n),
        0 <= i < n <= rs.len(),
    ensures
        fits(rs[i], t),
    decreases n,
{
    if i < n - 1 {
        lemma_children_fit_index(rs, t, n - 1, i);
    }
}

/// Over a nonnegative table every node total is nonnegative, and the value
/// passed upward is between zero and the pre-cap total.
pub proof fn lemma_eval_nonneg(r: Req, t: SumsView)
    requires
        nonneg(t),
    ensures
        0 <= eval(r, t) <= eval_total(r, t),
    decreases r, 1int, 1int,
{
    lemma_children_total_nonneg(r.subreqs@, t, r.subreqs@.len() as int);
    lemma_buckets_total_nonneg(t, r.groups@, r.groups@.len() as int);
}

proof fn lemma_children_total_nonneg(rs: Seq<Req>, t: SumsView, n: int)
    requires
        nonneg(t),
        n <= rs.len(),
    ensures
        children_total(rs, t, n) >= 0,
        forall|i: int| 0 <= i <= n ==> #[trigger] children_total(rs, t, i) <= children_total(
            rs,
            t,
            n,
        ),
    decreases rs, 0int, n,
{
    if 0 < n <= rs.len() {
        lemma_children_total_nonneg(rs, t, n - 1);
        lemma_eval_nonneg(rs[n - 1], t);
    }
}

proof fn lemma_buckets_total_nonneg(t: SumsView, gs: Seq<(String, Option<u32>)>, n: int)
    requires
        nonneg(t),
    ensures
        buckets_total(t, gs, n) >= 0,
        forall|i: int| 0 <= i <= n ==> #[trigger] buckets_total(t, gs, i) <= buckets_total(
            t,
            gs,
            n,
        ),
    decreases n,
{
    if n > 0 {
        lemma_buckets_total_nonneg(t, gs, n - 1);
        lemma_lookup_le_total(t, gs[n - 1].0@);
    }
}

impl Req {
    /// Evaluates this node against the sum table, checking as it goes that
    /// every total fits the machine word: children first, then the bucket
    /// reads, each clamped to its per-bucket cap. One report line is
    /// appended per node, children before parent; the verdict compares the
    /// pre-cap total with the minimum, and the returned value — what the
    /// parent sees — is the total clamped to this node's cap. `None`
    /// exactly when some total in the tree does not fit, in which case the
    /// report may keep the lines written before the overflow was found.
    pub fn try_check_req(&self, sums: &CreditSums, report: &mut Vec<Verdict>) -> (r: Option<u64>)
        ensures
            r matches Some(v) ==> fits(*self, sums@) && v as int == eval(*self, sums@)
                && final(report)@ == old(report)@ + report_of(*self, sums@),
            r is None ==> !fits(*self, sums@),
        decreases *self,
    {
        proof {
            sums.lemma_nonneg();
            lemma_eval_nonneg(*self, sums@);
        }
        let mut total: u64 = 0;
        let n = self.subreqs.len();
        let mut i: usize = 0;
        proof {
            assert(report@ =~= old(report)@ + children_reports(self.subreqs@, sums@, 0));
        }
        while i < n
            invariant
                0 <= i <= n,
                n == self.subreqs@.len(),
                nonneg(sums@),
                total as int == children_total(self.subreqs@, sums@, i as int),
                children_fit(self.subreqs@, sums@, i as int),
                report@ == old(report)@ + children_reports(self.subreqs@, sums@, i as int),
            decreases n - i,
        {
            proof {
                lemma_eval_nonneg(self.subreqs@[i as int], sums@);
                lemma_buckets_total_nonneg(sums@, self.groups@, self.groups@.len() as int);
            }
            match self.subreqs[i].try_check_req(sums, report) {
                None => {
                    proof {
                        if fits(*self, sums@) {
                            lemma_children_fit_index(
                                self.subreqs@,
                                sums@,
                                n as int,
                                i as int,
                            );
                        }
                    }
                    return None;
                },
                Some(c) => {
                    proof {
                        assert(children_total(self.subreqs@, sums@, i as int + 1)
                            == children_total(self.subreqs@, sums@, i as int) + eval(
                            self.subreqs@[i as int],
                            sums@,
                        ));
                        if fits(*self, sums@) {
                            lemma_children_total_nonneg(self.subreqs@, sums@, n as int);
                            assert(children_total(self.subreqs@, sums@, i as int + 1)
                                <= children_total(self.subreqs@, sums@, n as int));
                        }
                    }
                    if total > u64::MAX - c {
                        return None;
                    }
                    total = total + c;
                    proof {
                        assert(children_fit(self.subreqs@, sums@, i as int + 1));
                        assert(report@ =~= old(report)@ + children_reports(
                            self.subreqs@,
                            sums@,
                            i as int + 1,
                        ));
                    }
                },
            }
            i = i + 1;
        }
        let m = self.groups.len();
        let mut j: usize = 0;
        while j < m
            invariant
                0 <= j <= m,
                m == self.groups@.len(),
                n == self.subreqs@.len(),
                nonneg(sums@),
                total as int == children_total(self.subreqs@, sums@, n as int) + buckets_total(
                    sums@,
                    self.groups@,
                    j as int,
                ),
                children_fit(self.subreqs@, sums@, n as int),
                report@ == old(report)@ + children_reports(self.subreqs@, sums@, n as int),
            decreases m - j,
        {
            proof {
                lemma_children_total_nonneg(self.subreqs@, sums@, n as int);
                lemma_buckets_total_nonneg(sums@, self.groups@, m as int);
                lemma_lookup_le_total(sums@, self.groups@[j as int].0@);
            }
            let s = sums.get(self.groups[j].0.as_str());
            let take: u64 = match self.groups[j].1 {
                Some(c) => if s > c as u64 {
                    c as u64
                } else {
                    s
                },
                None => s,
            };
            proof {
                assert(take as int == bucket_take(sums@, self.groups@[j as int]));
                assert(buckets_total(sums@, self.groups@, j as int + 1) == buckets_total(
                    sums@,
                    self.groups@,
                    j as int,
                ) + bucket_take(sums@, self.groups@[j as int]));
                assert(buckets_total(sums@, self.groups@, j as int + 1) <= buckets_total(
                    sums@,
                    self.groups@,
                    m as int,
                ));
            }
            if total > u64::MAX - take {
                return None;
            }
            total = total + take;
            j = j + 1;
        }
        let passed = total >= self.min as u64;
        report.push(
            Verdict { desc: self.desc.clone(), total, min: self.min, passed },
        );
        proof {
            assert(total as int == eval_total(*self, sums@));
            assert(fits(*self, sums@));
            assert(Verdict { desc: self.desc, total, min: self.min, passed } == verdict_of(
                *self,
                sums@,
            ));
            assert(report@ =~= old(report)@ + report_of(*self, sums@));
        }
        match self.max {
            Some(mx) => if total > mx as u64 {
                Some(mx as u64)
            } else {
                Some(total)
            },
            None => Some(total),
        }
    }

    /// Evaluates this node against the sum table when every total in the
    /// tree is known to fit the machine word; see [`Req::try_check_req`]
    /// for the evaluation order and the report.
    pub fn check_req(&self, sums: &CreditSums, report: &mut Vec<Verdict>) -> (r: u64)
        requires
            fits(*self, sums@),
        ensures
            r as int == eval(*self, sums@),
            final(report)@ == old(report)@ + report_of(*self, sums@),
    {
        match self.try_check_req(sums, report) {
            Some(v) => v,
            None => vstd::pervasive::unreached(),
        }
    }
}

/// A node's cap clamps only the value passed upward: the emitted verdict —
/// the last line of the node's report — holds the pre-cap total against
/// the minimum, whatever the cap.
pub proof fn lemma_cap_applies_upward_only(r: Req, t: SumsView)
    ensures
        r.max matches Some(m) ==> eval(r, t) == (if eval_total(r, t) > m {
            m as int
        } else {
            eval_total(r, t)
        }),
        r.max is None ==> eval(r, t) == eval_total(r, t),
        report_of(r, t).len() > 0,
        report_of(r, t).last() == verdict_of(r, t),
        verdict_of(r, t).passed == (eval_total(r, t) >= r.min),
{
}

} // verus!

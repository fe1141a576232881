//! The classifier: ordered classification rules per transcript category.
//!
//! Each rule ([`UnitGroup`]) matches records by a compiled course-name or
//! course-id pattern, or matches everything; a record goes to the first rule
//! that matches, in declaration order. A passing record's credit is added to
//! the matched rule's entry in the credit sum table; a record no rule
//! matches is handed back as a diagnostic and credited nowhere.

use vstd::prelude::*;

use crate::pattern::CompiledPattern;
use crate::pattern::compile_pattern;
use crate::pattern::pattern_matches;
use crate::pattern::regex_match;
use crate::pattern::regex_ok;
use crate::sums::CreditSums;
use crate::sums::SumsView;
use crate::sums::bump;
use crate::sums::lookup;
use crate::sums::nonneg;
use crate::sums::table_total;
use crate::sums::lemma_bump_total;
use crate::sums::lemma_bump_lookup;
use crate::sums::lemma_lookup_le_total;
use crate::unit::Unit;

verus! {

/// How a rule matches a record: everything, by course name, or by course id.
pub enum Matcher {
    MatchAll,
    ByName(CompiledPattern),
    ById(CompiledPattern),
}

/// The mathematical shape of a matcher: the pattern text it tests.
pub ghost enum MatcherShape {
    All,
    ByName(Seq<char>),
    ById(Seq<char>),
}

/// The mathematical shape of a classification rule: everything matching and
/// crediting depends on, and nothing a batch of records can change.
pub ghost struct RuleShape {
    pub name: Seq<char>,
    pub matcher: MatcherShape,
    pub is_comp: bool,
}

/// One classification rule: a named, ordered matcher with the records it
/// has matched so far, and a "required" flag (`is_comp`).
pub struct UnitGroup {
    pub name: String,
    pub matcher: Matcher,
    pub units: Vec<Unit>,
    pub is_comp: bool,
}

impl UnitGroup {
    /// The rule's shape.
    pub open spec fn shape(&self) -> RuleShape {
        RuleShape {
            name: self.name@,
            matcher: match self.matcher {
                Matcher::MatchAll => MatcherShape::All,
                Matcher::ByName(p) => MatcherShape::ByName(p@),
                Matcher::ById(p) => MatcherShape::ById(p@),
            },
            is_comp: self.is_comp,
        }
    }

    /// A rule matching records whose course name the pattern matches;
    /// `None` exactly when the pattern does not compile.
    pub fn group_name(name: &str, reg: &str, is_comp: bool) -> (r: Option<UnitGroup>)
        ensures
            r is Some <==> regex_ok(reg@),
            r matches Some(g) ==> g.shape() == (RuleShape {
                name: name@,
                matcher: MatcherShape::ByName(reg@),
                is_comp,
            }) && g.units@ == Seq::<Unit>::empty(),
    {
        match compile_pattern(reg) {
            Some(p) => Some(
                UnitGroup {
                    name: name.to_owned(),
                    matcher: Matcher::ByName(p),
                    units: Vec::new(),
                    is_comp,
                },
            ),
            None => None,
        }
    }

    /// A rule matching records whose course id the pattern matches;
    /// `None` exactly when the pattern does not compile.
    pub fn group_id(name: &str, id: &str, is_comp: bool) -> (r: Option<UnitGroup>)
        ensures
            r is Some <==> regex_ok(id@),
            r matches Some(g) ==> g.shape() == (RuleShape {
                name: name@,
                matcher: MatcherShape::ById(id@),
                is_comp,
            }) && g.units@ == Seq::<Unit>::empty(),
    {
        match compile_pattern(id) {
            Some(p) => Some(
                UnitGroup {
                    name: name.to_owned(),
                    matcher: Matcher::ById(p),
                    units: Vec::new(),
                    is_comp,
                },
            ),
            None => None,
        }
    }

    /// The catch-all rule: it matches every record, so it must be declared
    /// after every rule meant to take precedence over it.
    pub fn group_none(name: &str, is_comp: bool) -> (r: UnitGroup)
        ensures
            r.shape() == (RuleShape { name: name@, matcher: MatcherShape::All, is_comp }),
            r.units@ == Seq::<Unit>::empty(),
    {
        UnitGroup { name: name.to_owned(), matcher: Matcher::MatchAll, units: Vec::new(), is_comp }
    }

    /// Whether this rule matches the record.
    pub fn check(&self, unit: &Unit) -> (r: bool)
        ensures
            r == rule_matches(self.shape(), *unit),
    {
        match &self.matcher {
            Matcher::MatchAll => true,
            Matcher::ByName(p) => pattern_matches(p, unit.unit_name.as_str()),
            Matcher::ById(p) => pattern_matches(p, unit.unit_id.as_str()),
        }
    }
}

/// Whether a rule of this shape matches the record: a name pattern is held
/// to the course name, an id pattern to the course id, and the catch-all
/// to everything.
pub open spec fn rule_matches(r: RuleShape, u: Unit) -> bool {
    match r.matcher {
        MatcherShape::All => true,
        MatcherShape::ByName(p) => regex_match(p, u.unit_name@),
        MatcherShape::ById(p) => regex_match(p, u.unit_id@),
    }
}

/// The shapes of an ordered rule list.
pub open spec fn shapes_of(gs: Seq<UnitGroup>) -> Seq<RuleShape> {
    gs.map_values(|g: UnitGroup| g.shape())
}

/// A record contributes credit only with a passing, finalized grade.
pub open spec fn passing(u: Unit) -> bool {
    u.grade_num > 0
}

pub open spec fn first_match_from(rs: Seq<RuleShape>, u: Unit, i: int) -> Option<int>
    decreases rs.len() - i,
{
    if i < 0 || i >= rs.len() {
        None
    } else if rule_matches(rs[i], u) {
        Some(i)
    } else {
        first_match_from(rs, u, i + 1)
    }
}

/// The index of the first rule that matches the record, in declaration
/// order, or `None` when no rule does.
pub open spec fn first_match(rs: Seq<RuleShape>, u: Unit) -> Option<int> {
    first_match_from(rs, u, 0)
}

proof fn lemma_first_match_skip(rs: Seq<RuleShape>, u: Unit, h: int, i: int)
    requires
        0 <= h <= i <= rs.len(),
        forall|jj: int| h <= jj < i ==> !rule_matches(rs[jj], u),
    ensures
        first_match_from(rs, u, h) == first_match_from(rs, u, i),
    decreases i - h,
{
    if h < i {
        lemma_first_match_skip(rs, u, h + 1, i);
    }
}

/// The first match is no later than any matching rule, and everything
/// before it fails to match.
pub proof fn lemma_first_match_props(rs: Seq<RuleShape>, u: Unit)
    ensures
        first_match(rs, u) matches Some(f) ==> 0 <= f < rs.len() && rule_matches(rs[f], u) && (
        forall|jj: int| 0 <= jj < f ==> !rule_matches(rs[jj], u)),
        first_match(rs, u) is None ==> forall|jj: int|
            0 <= jj < rs.len() ==> !rule_matches(rs[jj], u),
        forall|i: int| 0 <= i < rs.len() && rule_matches(rs[i], u) ==> first_match(rs, u) is Some,
{
    lemma_first_match_decompose(rs, u, 0);
}

proof fn lemma_first_match_decompose(rs: Seq<RuleShape>, u: Unit, i: int)
    requires
        0 <= i <= rs.len(),
        forall|jj: int| 0 <= jj < i ==> !rule_matches(rs[jj], u),
    ensures
        first_match(rs, u) matches Some(f) ==> i <= f < rs.len() && rule_matches(rs[f], u) && (
        forall|jj: int| 0 <= jj < f ==> !rule_matches(rs[jj], u)),
        first_match(rs, u) is None ==> forall|jj: int|
            0 <= jj < rs.len() ==> !rule_matches(rs[jj], u),
        forall|k: int|
            i <= k < rs.len() && rule_matches(rs[k], u) ==> first_match(rs, u) is Some,
    decreases rs.len() - i,
{
    lemma_first_match_skip(rs, u, 0, i);
    if i < rs.len() {
        if rule_matches(rs[i], u) {
        } else {
            lemma_first_match_decompose(rs, u, i + 1);
        }
    }
}

/// Where the first matching rule stands, given a witness: no rule before
/// `j` matches and rule `j` does.
pub proof fn lemma_first_match_at(rs: Seq<RuleShape>, u: Unit, j: int)
    requires
        0 <= j < rs.len(),
        rule_matches(rs[j], u),
        forall|jj: int| 0 <= jj < j ==> !rule_matches(rs[jj], u),
    ensures
        first_match(rs, u) == Some(j),
{
    lemma_first_match_skip(rs, u, 0, j);
}

/// When no rule matches, there is no first match.
pub proof fn lemma_first_match_none(rs: Seq<RuleShape>, u: Unit)
    requires
        forall|jj: int| 0 <= jj < rs.len() ==> !rule_matches(rs[jj], u),
    ensures
        first_match(rs, u) is None,
{
    lemma_first_match_skip(rs, u, 0, rs.len() as int);
}

/// The index of the first rule matching the record, scanning in
/// declaration order.
fn find_match(groups: &Vec<UnitGroup>, u: &Unit) -> (r: Option<usize>)
    ensures
        match r {
            Some(j) => j < groups@.len() && first_match(shapes_of(groups@), *u) == Some(j as int),
            None => first_match(shapes_of(groups@), *u) is None,
        },
{
    let m = groups.len();
    let mut j: usize = 0;
    while j < m
        invariant
            0 <= j <= m,
            m == groups@.len(),
            forall|jj: int| 0 <= jj < j ==> !rule_matches(shapes_of(groups@)[jj], *u),
        decreases m - j,
    {
        if groups[j].check(u) {
            proof {
                assert(shapes_of(groups@)[j as int] == groups@[j as int].shape());
                lemma_first_match_at(shapes_of(groups@), *u, j as int);
            }
            return Some(j);
        }
        proof {
            assert(shapes_of(groups@)[j as int] == groups@[j as int].shape());
        }
        j = j + 1;
    }
    proof {
        lemma_first_match_none(shapes_of(groups@), *u);
    }
    None
}

/// The table after classifying one record: the first matching rule's entry
/// rises by the record's credit when the grade passes; otherwise, and when
/// no rule matches, the table is unchanged.
pub open spec fn classify_step(t: SumsView, rs: Seq<RuleShape>, u: Unit) -> SumsView {
    match first_match(rs, u) {
        Some(i) => if passing(u) {
            bump(t, rs[i].name, u.unit_num as int)
        } else {
            t
        },
        None => t,
    }
}

/// The table after classifying the records in order.
pub open spec fn classify_sums(t: SumsView, rs: Seq<RuleShape>, us: Seq<Unit>) -> SumsView
    decreases us.len(),
{
    if us.len() == 0 {
        t
    } else {
        classify_step(classify_sums(t, rs, us.drop_last()), rs, us.last())
    }
}

/// The records no rule matches, in order.
pub open spec fn unmatched_units(rs: Seq<RuleShape>, us: Seq<Unit>) -> Seq<Unit>
    decreases us.len(),
{
    if us.len() == 0 {
        Seq::<Unit>::empty()
    } else {
        let rest = unmatched_units(rs, us.drop_last());
        if first_match(rs, us.last()) is None {
            rest.push(us.last())
        } else {
            rest
        }
    }
}

/// The records whose first matching rule is the one at index `i`, in order.
pub open spec fn matched_units(rs: Seq<RuleShape>, us: Seq<Unit>, i: int) -> Seq<Unit>
    decreases us.len(),
{
    if us.len() == 0 {
        Seq::<Unit>::empty()
    } else {
        let rest = matched_units(rs, us.drop_last(), i);
        if first_match(rs, us.last()) == Some(i) {
            rest.push(us.last())
        } else {
            rest
        }
    }
}

/// The credit carried by the records with a passing finalized grade.
pub open spec fn passing_credit(us: Seq<Unit>) -> int
    decreases us.len(),
{
    if us.len() == 0 {
        0
    } else {
        passing_credit(us.drop_last()) + if passing(us.last()) {
            us.last().unit_num as int
        } else {
            0
        }
    }
}

pub proof fn lemma_passing_credit_nonneg(us: Seq<Unit>)
    ensures
        passing_credit(us) >= 0,
    decreases us.len(),
{
    if us.len() > 0 {
        lemma_passing_credit_nonneg(us.drop_last());
    }
}

proof fn lemma_passing_credit_first(us: Seq<Unit>)
    requires
        us.len() > 0,
    ensures
        passing_credit(us) == (if passing(us.first()) {
            us.first().unit_num as int
        } else {
            0
        }) + passing_credit(us.drop_first()),
    decreases us.len(),
{
    if us.len() == 1 {
        assert(us.drop_last() =~= Seq::<Unit>::empty());
        assert(us.drop_first() =~= Seq::<Unit>::empty());
        assert(us.last() == us.first());
    } else {
        lemma_passing_credit_first(us.drop_last());
        assert(us.drop_last().first() == us.first());
        assert(us.drop_first().drop_last() =~= us.drop_last().drop_first());
        assert(us.drop_first().last() == us.last());
    }
}

/// One classifier: the ordered rules of one top-level category, the credit
/// sum table they have accumulated, and the category's display label.
pub struct UnitGroupMap {
    pub group_name: String,
    pub groups: Vec<UnitGroup>,
    pub sums: CreditSums,
}

impl UnitGroupMap {
    /// The shapes of this classifier's rules, in declaration order.
    pub open spec fn shapes(&self) -> Seq<RuleShape> {
        shapes_of(self.groups@)
    }

    /// A well-formed classifier has a well-formed sum table.
    pub open spec fn wf(&self) -> bool {
        self.sums.wf()
    }

    /// An empty classifier for one category.
    pub fn new(group_name: &str) -> (r: UnitGroupMap)
        ensures
            r.group_name@ == group_name@,
            r.groups@ == Seq::<UnitGroup>::empty(),
            r.sums@ == Seq::<(Seq<char>, int)>::empty(),
            r.wf(),
    {
        UnitGroupMap {
            group_name: group_name.to_owned(),
            groups: Vec::new(),
            sums: CreditSums::new(),
        }
    }

    /// Declares the next rule; later rules yield to it on overlap.
    pub fn add_group(&mut self, g: UnitGroup)
        ensures
            final(self).groups@ == old(self).groups@.push(g),
            final(self).sums == old(self).sums,
            final(self).group_name == old(self).group_name,
    {
        self.groups.push(g);
    }

    /// Classifies a batch of records: each goes to its first matching rule,
    /// in declaration order; a passing record's credit is added to that
    /// rule's sum; the records no rule matches come back, credited nowhere.
    pub fn push_units(&mut self, units: Vec<Unit>) -> (unmatched: Vec<Unit>)
        requires
            old(self).wf(),
            table_total(old(self).sums@) + passing_credit(units@) <= u64::MAX,
        ensures
            final(self).wf(),
            final(self).group_name == old(self).group_name,
            final(self).groups@.len() == old(self).groups@.len(),
            shapes_of(final(self).groups@) == shapes_of(old(self).groups@),
            final(self).sums@ == classify_sums(
                old(self).sums@,
                shapes_of(old(self).groups@),
                units@,
            ),
            unmatched@ == unmatched_units(shapes_of(old(self).groups@), units@),
            forall|i: int|
                0 <= i < old(self).groups@.len() ==> final(self).groups@[i].units@ == old(
                    self,
                ).groups@[i].units@ + matched_units(shapes_of(old(self).groups@), units@, i),
    {
        let ghost all = units@;
        let ghost t0 = self.sums@;
        let ghost rs = shapes_of(self.groups@);
        let ghost g0 = self.groups@;
        let mut units = units;
        let mut unmatched: Vec<Unit> = Vec::new();
        let ghost mut k: int = 0;
        proof {
            assert(all.subrange(0, 0) =~= Seq::<Unit>::empty());
            assert(all.skip(0) =~= all);
            assert forall|i: int| 0 <= i < g0.len() implies self.groups@[i].units@ == g0[i].units@
                + matched_units(rs, all.subrange(0, 0), i) by {
                assert(g0[i].units@ + Seq::<Unit>::empty() =~= g0[i].units@);
            }
        }
        while units.len() > 0
            invariant
                0 <= k <= all.len(),
                units@ == all.skip(k),
                self.group_name == old(self).group_name,
                self.groups@.len() == g0.len(),
                shapes_of(self.groups@) == rs,
                rs == shapes_of(g0),
                g0 == old(self).groups@,
                t0 == old(self).sums@,
                self.sums.wf(),
                self.sums@ == classify_sums(t0, rs, all.subrange(0, k)),
                unmatched@ == unmatched_units(rs, all.subrange(0, k)),
                forall|i: int|
                    0 <= i < g0.len() ==> self.groups@[i].units@ == g0[i].units@ + matched_units(
                        rs,
                        all.subrange(0, k),
                        i,
                    ),
                table_total(self.sums@) + passing_credit(all.skip(k)) <= u64::MAX,
            decreases units@.len(),
        {
            let ghost pre = all.subrange(0, k);
            let ghost post = all.subrange(0, k + 1);
            let u = units.remove(0);
            proof {
                assert(all.skip(k).len() > 0);
                assert(u == all.skip(k)[0]);
                assert(u == all[k]);
                assert(units@ =~= all.skip(k + 1));
                assert(post.drop_last() =~= pre);
                assert(post.last() == u);
                lemma_passing_credit_first(all.skip(k));
                assert(all.skip(k).first() == u);
                assert(all.skip(k).drop_first() =~= all.skip(k + 1));
                lemma_passing_credit_nonneg(all.skip(k + 1));
            }
            match find_match(&self.groups, &u) {
                Some(j) => {
                    proof {
                        assert(first_match(rs, u) == Some(j as int));
                        assert(shapes_of(self.groups@)[j as int] == self.groups@[j as int].shape());
                        assert(rs[j as int].name == self.groups@[j as int].name@);
                    }
                    if u.grade_num > 0 {
                        proof {
                            self.sums.lemma_nonneg();
                            lemma_lookup_le_total(self.sums@, rs[j as int].name);
                            lemma_bump_total(self.sums@, rs[j as int].name, u.unit_num as int);
                        }
                        let credit: u64 = u.unit_num as u64;
                        self.sums.add(self.groups[j].name.as_str(), credit);
                    }
                    proof {
                        assert(self.sums@ == classify_step(
                            classify_sums(t0, rs, pre),
                            rs,
                            u,
                        ));
                        assert(self.sums@ == classify_sums(t0, rs, post));
                        assert(unmatched@ == unmatched_units(rs, post));
                    }
                    let ghost gs_mid = self.groups@;
                    self.groups[j].units.push(u);
                    proof {
                        assert(self.groups@[j as int].units@ == gs_mid[j as int].units@.push(u));
                        assert(self.groups@ =~= gs_mid.update(
                            j as int,
                            self.groups@[j as int],
                        ));
                        assert(shapes_of(self.groups@) =~= rs) by {
                            assert forall|i: int| 0 <= i < g0.len() implies shapes_of(
                                self.groups@,
                            )[i] == rs[i] by {
                                assert(shapes_of(self.groups@)[i] == self.groups@[i].shape());
                                assert(shapes_of(gs_mid)[i] == gs_mid[i].shape());
                                if i == j as int {
                                    assert(self.groups@[i].name == gs_mid[i].name);
                                    assert(self.groups@[i].matcher == gs_mid[i].matcher);
                                    assert(self.groups@[i].is_comp == gs_mid[i].is_comp);
                                }
                            }
                        }
                        assert forall|i: int| 0 <= i < g0.len() implies self.groups@[i].units@
                            == g0[i].units@ + matched_units(rs, post, i) by {
                            if i == j as int {
                                assert(matched_units(rs, post, i) == matched_units(
                                    rs,
                                    pre,
                                    i,
                                ).push(u));
                                assert(g0[i].units@ + matched_units(rs, pre, i).push(u) =~= (
                                g0[i].units@ + matched_units(rs, pre, i)).push(u));
                            } else {
                                assert(matched_units(rs, post, i) == matched_units(rs, pre, i));
                                assert(self.groups@[i].units@ == gs_mid[i].units@);
                            }
                        }
                        k = k + 1;
                    }
                },
                None => {
                    unmatched.push(u);
                    proof {
                        assert(first_match(rs, u) is None);
                        assert(self.sums@ == classify_sums(t0, rs, post));
                        assert(unmatched@ == unmatched_units(rs, pre).push(u));
                        assert(unmatched@ == unmatched_units(rs, post));
                        assert forall|i: int| 0 <= i < g0.len() implies self.groups@[i].units@
                            == g0[i].units@ + matched_units(rs, post, i) by {
                            assert(matched_units(rs, post, i) == matched_units(rs, pre, i));
                        }
                        k = k + 1;
                    }
                },
            }
        }
        proof {
            assert(all.skip(k).len() == 0);
            assert(k == all.len());
            assert(all.subrange(0, k) =~= all);
        }
        unmatched
    }

    /// The names of the required rules that matched no record at all: the
    /// "missing requirement" diagnostics.
    pub fn missing_required(&self) -> (r: Vec<String>)
        ensures
            r.deep_view() == missing_names(self.groups@),
    {
        let mut r: Vec<String> = Vec::new();
        let n = self.groups.len();
        let mut i: usize = 0;
        proof {
            assert(self.groups@.subrange(0, 0) =~= Seq::<UnitGroup>::empty());
            assert(r.deep_view() =~= missing_names(self.groups@.subrange(0, 0)));
        }
        while i < n
            invariant
                0 <= i <= n,
                n == self.groups@.len(),
                r.deep_view() == missing_names(self.groups@.subrange(0, i as int)),
            decreases n - i,
        {
            let ghost pre = self.groups@.subrange(0, i as int);
            let ghost post = self.groups@.subrange(0, i as int + 1);
            proof {
                assert(post.drop_last() =~= pre);
                assert(post.last() == self.groups@[i as int]);
            }
            if self.groups[i].is_comp && self.groups[i].units.len() == 0 {
                r.push(self.groups[i].name.clone());
                proof {
                    assert(r.deep_view() =~= missing_names(post));
                }
            } else {
                proof {
                    assert(r.deep_view() =~= missing_names(post));
                }
            }
            i = i + 1;
        }
        proof {
            assert(self.groups@.subrange(0, n as int) =~= self.groups@);
        }
        r
    }
}

/// The passing credit a batch of records carries, or `None` when it does
/// not fit the machine word. A caller holds this, together with the
/// table's current total, against the bound that `push_units` asks for.
pub fn batch_passing_credit(units: &Vec<Unit>) -> (r: Option<u64>)
    ensures
        r matches Some(v) ==> v as int == passing_credit(units@),
        r is None ==> passing_credit(units@) > u64::MAX,
{
    let n = units.len();
    let mut acc: u64 = 0;
    let mut i: usize = 0;
    proof {
        assert(units@.skip(0) =~= units@);
    }
    while i < n
        invariant
            0 <= i <= n,
            n == units@.len(),
            passing_credit(units@) == acc + passing_credit(units@.skip(i as int)),
        decreases n - i,
    {
        let ghost rest = units@.skip(i as int);
        proof {
            lemma_passing_credit_first(rest);
            assert(rest.first() == units@[i as int]);
            assert(rest.drop_first() =~= units@.skip(i as int + 1));
            lemma_passing_credit_nonneg(rest.drop_first());
        }
        if units[i].grade_num > 0 {
            let v: u64 = units[i].unit_num as u64;
            if acc > u64::MAX - v {
                return None;
            }
            acc = acc + v;
        }
        i = i + 1;
    }
    proof {
        assert(units@.skip(n as int) =~= Seq::<Unit>::empty());
    }
    Some(acc)
}

/// Credit conservation: after classifying a batch, the growth of the sum
/// table plus the passing credit of the unmatched records equals the
/// passing credit of the whole batch — no passing credit is lost or
/// counted twice.
pub proof fn lemma_credit_conservation(t: SumsView, rs: Seq<RuleShape>, us: Seq<Unit>)
    ensures
        table_total(classify_sums(t, rs, us)) + passing_credit(unmatched_units(rs, us))
            == table_total(t) + passing_credit(us),
    decreases us.len(),
{
    if us.len() > 0 {
        let pre = us.drop_last();
        let u = us.last();
        lemma_credit_conservation(t, rs, pre);
        let cur = classify_sums(t, rs, pre);
        match first_match(rs, u) {
            Some(i) => {
                if passing(u) {
                    lemma_bump_total(cur, rs[i].name, u.unit_num as int);
                }
                assert(unmatched_units(rs, us) == unmatched_units(rs, pre));
            },
            None => {
                let m = unmatched_units(rs, pre);
                assert(unmatched_units(rs, us) == m.push(u));
                assert(m.push(u).drop_last() =~= m);
                assert(m.push(u).last() == u);
            },
        }
    }
}

/// Classifier determinism: the sum table after classification is a function
/// of the starting table, the rule shapes and the records alone, so two
/// runs over the same inputs produce identical tables.
pub proof fn lemma_classifier_deterministic(
    t: SumsView,
    rs: Seq<RuleShape>,
    us: Seq<Unit>,
    s1: SumsView,
    s2: SumsView,
)
    requires
        s1 == classify_sums(t, rs, us),
        s2 == classify_sums(t, rs, us),
    ensures
        s1 == s2,
{
}

/// Rule precedence: when two rules both match a record, the credit goes to
/// a rule declared no later than the earlier of the two; a later matching
/// rule's bucket, under a different name, does not move.
pub proof fn lemma_rule_precedence(t: SumsView, rs: Seq<RuleShape>, u: Unit, i: int, j: int)
    requires
        0 <= i < j < rs.len(),
        rule_matches(rs[i], u),
        rule_matches(rs[j], u),
    ensures
        first_match(rs, u) is Some,
        ({
            let f = first_match(rs, u)->Some_0;
            let after = classify_sums(t, rs, seq![u]);
            &&& 0 <= f <= i
            &&& rule_matches(rs[f], u)
            &&& passing(u) ==> lookup(after, rs[f].name) == lookup(t, rs[f].name)
                + u.unit_num
            &&& !passing(u) ==> after == t
            &&& rs[j].name != rs[f].name ==> lookup(after, rs[j].name) == lookup(t, rs[j].name)
        }),
{
    lemma_first_match_props(rs, u);
    let f = first_match(rs, u)->Some_0;
    assert(f <= i) by {
        if f > i {
            assert(!rule_matches(rs[i], u));
        }
    }
    assert(seq![u].drop_last() =~= Seq::<Unit>::empty());
    assert(seq![u].last() == u);
    assert(classify_sums(t, rs, Seq::<Unit>::empty()) == t);
    assert(classify_sums(t, rs, seq![u]) == classify_step(t, rs, u));
    if passing(u) {
        lemma_bump_lookup(t, rs[f].name, u.unit_num as int, rs[f].name);
        lemma_bump_lookup(t, rs[f].name, u.unit_num as int, rs[j].name);
    }
}

/// The names of the required rules with an empty match list, in declaration
/// order.
pub open spec fn missing_names(gs: Seq<UnitGroup>) -> Seq<Seq<char>>
    decreases gs.len(),
{
    if gs.len() == 0 {
        Seq::<Seq<char>>::empty()
    } else {
        let rest = missing_names(gs.drop_last());
        if gs.last().is_comp && gs.last().units@.len() == 0 {
            rest.push(gs.last().name@)
        } else {
            rest
        }
    }
}

} // verus!

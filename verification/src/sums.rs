//! The credit sum table: accumulated passing credit per rule name.
//!
//! The table is an association list with unique keys; a name that was never
//! credited reads as zero. Its mathematical model is a sequence of
//! (name, credit) pairs, with [`lookup`], [`bump`] and [`table_total`]
//! describing reads, credit additions and the sum of all entries.

use vstd::prelude::*;

verus! {

/// The model of a credit sum table: (name, credit in tenths) pairs.
pub type SumsView = Seq<(Seq<char>, int)>;

/// Whether some entry carries the key.
pub open spec fn has_key(s: SumsView, k: Seq<char>) -> bool {
    exists|i: int| 0 <= i < s.len() && s[i].0 == k
}

/// The first index carrying the key, or the length when none does.
pub open spec fn key_index(s: SumsView, k: Seq<char>) -> int
    decreases s.len(),
{
    if s.len() == 0 {
        0
    } else if s.first().0 == k {
        0
    } else {
        1 + key_index(s.drop_first(), k)
    }
}

/// The credit recorded under a key; zero for an absent key.
pub open spec fn lookup(s: SumsView, k: Seq<char>) -> int
    decreases s.len(),
{
    if s.len() == 0 {
        0
    } else if s.first().0 == k {
        s.first().1
    } else {
        lookup(s.drop_first(), k)
    }
}

/// The sum of all recorded credits.
pub open spec fn table_total(s: SumsView) -> int
    decreases s.len(),
{
    if s.len() == 0 {
        0
    } else {
        s.first().1 + table_total(s.drop_first())
    }
}

/// The table after adding `v` under key `k`: the entry is updated in place,
/// or appended when the key is new.
pub open spec fn bump(s: SumsView, k: Seq<char>, v: int) -> SumsView {
    if has_key(s, k) {
        let i = key_index(s, k);
        s.update(i, (s[i].0, s[i].1 + v))
    } else {
        s.push((k, v))
    }
}

/// No two entries share a key.
pub open spec fn keys_unique(s: SumsView) -> bool {
    forall|i: int, j: int| 0 <= i < j < s.len() ==> s[i].0 != s[j].0
}

/// Every recorded credit is nonnegative.
pub open spec fn nonneg(s: SumsView) -> bool {
    forall|i: int| 0 <= i < s.len() ==> s[i].1 >= 0
}

pub proof fn lemma_key_index(s: SumsView, k: Seq<char>)
    ensures
        has_key(s, k) ==> 0 <= key_index(s, k) < s.len() && s[key_index(s, k)].0 == k,
        !has_key(s, k) ==> key_index(s, k) == s.len(),
        forall|j: int| 0 <= j < key_index(s, k) ==> s[j].0 != k,
        lookup(s, k) == (if has_key(s, k) {
            s[key_index(s, k)].1
        } else {
            0
        }),
    decreases s.len(),
{
    if s.len() > 0 && s.first().0 != k {
        let t = s.drop_first();
        lemma_key_index(t, k);
        assert(s[0] == s.first());
        assert(has_key(s, k) ==> has_key(t, k)) by {
            if has_key(s, k) {
                let i = choose|i: int| 0 <= i < s.len() && s[i].0 == k;
                assert(i >= 1);
                assert(t[i - 1] == s[i]);
            }
        }
        assert(has_key(t, k) ==> has_key(s, k)) by {
            if has_key(t, k) {
                let i = choose|i: int| 0 <= i < t.len() && t[i].0 == k;
                assert(s[i + 1] == t[i]);
            }
        }
        if has_key(s, k) {
            assert(s[key_index(s, k)] == t[key_index(t, k)]);
        }
        assert forall|j: int| 0 <= j < key_index(s, k) implies s[j].0 != k by {
            if j >= 1 {
                assert(t[j - 1] == s[j]);
            }
        }
    }
}

pub proof fn lemma_total_update(s: SumsView, i: int, p: (Seq<char>, int))
    requires
        0 <= i < s.len(),
    ensures
        table_total(s.update(i, p)) == table_total(s) - s[i].1 + p.1,
    decreases s.len(),
{
    let u = s.update(i, p);
    if i == 0 {
        assert(u.first() == p);
        assert(u.drop_first() =~= s.drop_first());
    } else {
        assert(u.first() == s.first());
        assert(u.drop_first() =~= s.drop_first().update(i - 1, p));
        lemma_total_update(s.drop_first(), i - 1, p);
        assert(s.drop_first()[i - 1] == s[i]);
    }
}

pub proof fn lemma_total_push(s: SumsView, p: (Seq<char>, int))
    ensures
        table_total(s.push(p)) == table_total(s) + p.1,
    decreases s.len(),
{
    let u = s.push(p);
    if s.len() == 0 {
        assert(u.first() == p);
        assert(u.drop_first() =~= Seq::<(Seq<char>, int)>::empty());
        assert(table_total(Seq::<(Seq<char>, int)>::empty()) == 0);
    } else {
        assert(u.first() == s.first());
        assert(u.drop_first() =~= s.drop_first().push(p));
        lemma_total_push(s.drop_first(), p);
    }
}

/// Adding under a key raises that key's credit by the added amount and
/// leaves the sum of all entries raised by the same amount.
pub proof fn lemma_bump_total(s: SumsView, k: Seq<char>, v: int)
    ensures
        table_total(bump(s, k, v)) == table_total(s) + v,
{
    lemma_key_index(s, k);
    if has_key(s, k) {
        let i = key_index(s, k);
        lemma_total_update(s, i, (s[i].0, s[i].1 + v));
    } else {
        lemma_total_push(s, (k, v));
    }
}

proof fn lemma_lookup_update(s: SumsView, i: int, p: (Seq<char>, int), k: Seq<char>)
    requires
        0 <= i < s.len(),
        s[i].0 == p.0,
    ensures
        p.0 != k ==> lookup(s.update(i, p), k) == lookup(s, k),
        p.0 == k && (forall|j: int| 0 <= j < i ==> s[j].0 != k) ==> lookup(s.update(i, p), k)
            == p.1,
    decreases s.len(),
{
    let u = s.update(i, p);
    if i == 0 {
        assert(u.first() == p);
        assert(u.drop_first() =~= s.drop_first());
    } else {
        assert(u.first() == s.first());
        assert(u.drop_first() =~= s.drop_first().update(i - 1, p));
        assert(s.drop_first()[i - 1] == s[i]);
        lemma_lookup_update(s.drop_first(), i - 1, p, k);
        if p.0 == k && (forall|j: int| 0 <= j < i ==> s[j].0 != k) {
            assert(s.first().0 != k);
            assert forall|j: int| 0 <= j < i - 1 implies s.drop_first()[j].0 != k by {
                assert(s.drop_first()[j] == s[j + 1]);
            }
        }
    }
}

proof fn lemma_lookup_push(s: SumsView, p: (Seq<char>, int), k: Seq<char>)
    ensures
        p.0 != k ==> lookup(s.push(p), k) == lookup(s, k),
        p.0 == k && !has_key(s, k) ==> lookup(s.push(p), k) == p.1,
    decreases s.len(),
{
    let u = s.push(p);
    if s.len() == 0 {
        assert(u.first() == p);
        assert(u.drop_first() =~= Seq::<(Seq<char>, int)>::empty());
        assert(lookup(Seq::<(Seq<char>, int)>::empty(), k) == 0);
    } else {
        assert(u.first() == s.first());
        assert(u.drop_first() =~= s.drop_first().push(p));
        lemma_lookup_push(s.drop_first(), p, k);
        if p.0 == k && !has_key(s, k) {
            assert(s.first().0 != k) by {
                assert(s[0] == s.first());
            }
            assert(!has_key(s.drop_first(), k)) by {
                if has_key(s.drop_first(), k) {
                    let i = choose|i: int|
                        0 <= i < s.drop_first().len() && s.drop_first()[i].0 == k;
                    assert(s[i + 1] == s.drop_first()[i]);
                }
            }
        }
    }
}

/// Adding under a key raises exactly that key's credit; every other key
/// reads as before.
pub proof fn lemma_bump_lookup(s: SumsView, k: Seq<char>, v: int, k2: Seq<char>)
    ensures
        k2 == k ==> lookup(bump(s, k, v), k2) == lookup(s, k2) + v,
        k2 != k ==> lookup(bump(s, k, v), k2) == lookup(s, k2),
{
    lemma_key_index(s, k);
    if has_key(s, k) {
        let i = key_index(s, k);
        lemma_lookup_update(s, i, (s[i].0, s[i].1 + v), k2);
    } else {
        lemma_lookup_push(s, (k, v), k2);
    }
}

/// Adding credit keeps the keys unique and, for a nonnegative amount,
/// the entries nonnegative.
pub proof fn lemma_bump_wf(s: SumsView, k: Seq<char>, v: int)
    ensures
        keys_unique(s) ==> keys_unique(bump(s, k, v)),
        nonneg(s) && v >= 0 ==> nonneg(bump(s, k, v)),
{
    lemma_key_index(s, k);
    let u = bump(s, k, v);
    if has_key(s, k) {
        let i = key_index(s, k);
        assert(forall|j: int| 0 <= j < u.len() ==> u[j].0 == s[j].0);
    } else {
        assert(forall|j: int| 0 <= j < s.len() ==> u[j] == s[j]);
        assert(u[s.len() as int].0 == k);
    }
}

/// A nonnegative table has a nonnegative total.
pub proof fn lemma_total_nonneg(s: SumsView)
    requires
        nonneg(s),
    ensures
        table_total(s) >= 0,
    decreases s.len(),
{
    if s.len() > 0 {
        assert(forall|i: int| 0 <= i < s.drop_first().len() ==> s.drop_first()[i] == s[i + 1]);
        lemma_total_nonneg(s.drop_first());
        assert(s[0] == s.first());
    }
}

/// In a nonnegative table no single key reads more than the total.
pub proof fn lemma_lookup_le_total(s: SumsView, k: Seq<char>)
    requires
        nonneg(s),
    ensures
        0 <= lookup(s, k) <= table_total(s),
    decreases s.len(),
{
    if s.len() > 0 {
        assert(nonneg(s.drop_first())) by {
            assert(forall|i: int| 0 <= i < s.drop_first().len() ==> s.drop_first()[i] == s[i
                + 1]);
        }
        lemma_lookup_le_total(s.drop_first(), k);
        assert(s.first().1 >= 0) by {
            assert(s[0] == s.first());
        }
    }
}

/// The credit sum table: maps a rule name to its accumulated passing
/// credit, in tenths of a credit.
pub struct CreditSums {
    entries: Vec<(String, u64)>,
}

impl View for CreditSums {
    type V = SumsView;

    closed spec fn view(&self) -> SumsView {
        Seq::new(self.entries@.len(), |i: int| (self.entries@[i].0@, self.entries@[i].1 as int))
    }
}

impl CreditSums {
    /// A well-formed table holds each name at most once.
    pub open spec fn wf(&self) -> bool {
        keys_unique(self@)
    }

    /// A table read through the model is nonnegative: credits are stored
    /// as unsigned amounts.
    pub proof fn lemma_nonneg(&self)
        ensures
            nonneg(self@),
    {
    }

    /// The empty table: every name reads as zero.
    pub fn new() -> (r: CreditSums)
        ensures
            r@ == Seq::<(Seq<char>, int)>::empty(),
            r.wf(),
    {
        let r = CreditSums { entries: Vec::new() };
        proof {
            assert(r@ =~= Seq::<(Seq<char>, int)>::empty());
        }
        r
    }

    /// Reads the credit recorded under a name; zero when the name was
    /// never credited.
    pub fn get(&self, name: &str) -> (r: u64)
        ensures
            r as int == lookup(self@, name@),
    {
        let key: String = name.to_owned();
        let n = self.entries.len();
        let mut i: usize = 0;
        proof {
            lemma_key_index(self@, name@);
        }
        while i < n
            invariant
                0 <= i <= n,
                n == self.entries@.len(),
                key@ == name@,
                forall|j: int| 0 <= j < i ==> self@[j].0 != name@,
                lookup(self@, name@) == (if has_key(self@, name@) {
                    self@[key_index(self@, name@)].1
                } else {
                    0
                }),
                forall|j: int| 0 <= j < key_index(self@, name@) ==> self@[j].0 != name@,
                has_key(self@, name@) ==> 0 <= key_index(self@, name@) < n && self@[key_index(
                    self@,
                    name@,
                )].0 == name@,
                !has_key(self@, name@) ==> key_index(self@, name@) == n,
            decreases n - i,
        {
            if self.entries[i].0 == key {
                proof {
                    assert(self@[i as int].0 == name@);
                    assert(has_key(self@, name@));
                    let ki = key_index(self@, name@);
                    assert(ki == i as int) by {
                        if ki < i as int {
                            assert(self@[ki].0 != name@);
                        }
                    }
                }
                return self.entries[i].1;
            }
            i = i + 1;
        }
        proof {
            if has_key(self@, name@) {
                let ki = key_index(self@, name@);
                assert(self@[ki].0 != name@);
            }
        }
        0
    }

    /// The sum of every entry, or `None` when it does not fit the machine
    /// word.
    pub fn total(&self) -> (r: Option<u64>)
        ensures
            r matches Some(v) ==> v as int == table_total(self@),
            r is None ==> table_total(self@) > u64::MAX,
    {
        proof {
            self.lemma_nonneg();
        }
        let n = self.entries.len();
        let mut acc: u64 = 0;
        let mut i: usize = 0;
        proof {
            assert(self@.skip(0) =~= self@);
        }
        while i < n
            invariant
                0 <= i <= n,
                n == self.entries@.len(),
                nonneg(self@),
                table_total(self@) == acc + table_total(self@.skip(i as int)),
            decreases n - i,
        {
            let ghost rest = self@.skip(i as int);
            proof {
                assert(rest.first() == self@[i as int]);
                assert(rest.drop_first() =~= self@.skip(i as int + 1));
                assert(nonneg(rest.drop_first())) by {
                    assert(forall|j: int|
                        0 <= j < rest.drop_first().len() ==> rest.drop_first()[j] == self@[i
                            + 1 + j]);
                }
                lemma_total_nonneg(rest.drop_first());
            }
            let v: u64 = self.entries[i].1;
            if acc > u64::MAX - v {
                return None;
            }
            acc = acc + v;
            i = i + 1;
        }
        proof {
            assert(self@.skip(n as int) =~= Seq::<(Seq<char>, int)>::empty());
        }
        Some(acc)
    }

    /// Adds passing credit under a name, creating the entry at first need.
    pub fn add(&mut self, name: &str, amount: u64)
        requires
            old(self).wf(),
            lookup(old(self)@, name@) + amount <= u64::MAX,
        ensures
            final(self)@ == bump(old(self)@, name@, amount as int),
            final(self).wf(),
    {
        proof {
            lemma_key_index(old(self)@, name@);
            lemma_bump_wf(old(self)@, name@, amount as int);
        }
        let key: String = name.to_owned();
        let n = self.entries.len();
        let mut i: usize = 0;
        while i < n
            invariant
                0 <= i <= n,
                *self == *old(self),
                n == self.entries@.len(),
                key@ == name@,
                old(self).wf(),
                lookup(old(self)@, name@) + amount <= u64::MAX,
                forall|j: int| 0 <= j < i ==> self@[j].0 != name@,
            decreases n - i,
        {
            if self.entries[i].0 == key {
                proof {
                    lemma_bump_wf(old(self)@, name@, amount as int);
                    assert(self@[i as int].0 == name@);
                    assert(has_key(self@, name@));
                    lemma_key_index(self@, name@);
                    let ki = key_index(self@, name@);
                    assert(ki == i as int) by {
                        if ki < i as int {
                            assert(self@[ki].0 != name@);
                        }
                        if ki > i as int {
                            assert(self@[ki].0 == name@);
                        }
                    }
                    assert(lookup(self@, name@) == self@[i as int].1);
                    assert(self@[i as int].1 == self.entries@[i as int].1 as int);
                }
                let cur: u64 = self.entries[i].1;
                self.entries[i].1 = cur + amount;
                proof {
                    assert(self@ =~= bump(old(self)@, name@, amount as int));
                }
                return ;
            }
            i = i + 1;
        }
        proof {
            if has_key(self@, name@) {
                let j = choose|j: int| 0 <= j < self@.len() && self@[j].0 == name@;
                assert(self@[j].0 != name@);
            }
        }
        self.entries.push((key, amount));
        proof {
            assert(self@ =~= bump(old(self)@, name@, amount as int));
        }
    }
}

} // verus!

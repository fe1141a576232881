//! Transcript records: one completed or attempted course.
//!
//! A record's credit is held in tenths of a credit and its grade value in
//! tenths of a grade point, so `4.3` grade points is `43` and a `1.0`-credit
//! course is `10`.

use vstd::prelude::*;
use vstd::string::StrSliceExecFns;

verus! {

/// Top-level transcript partition: major-specialized (`A`),
/// major-foundational (`B`), general-foundational (`C`) and
/// related-foundational (`C0`).
#[derive(Clone, Copy, PartialEq, Eq, Structural, Debug)]
pub enum Category {
    A,
    B,
    C,
    C0,
}

/// Why a transcript row was rejected.
#[derive(Clone, Copy, PartialEq, Eq, Structural, Debug)]
pub enum UnitError {
    /// The row does not have exactly eleven fields.
    WrongFieldCount,
    /// The credit field, after its one-character type prefix, is not a
    /// positive `1.0`-style decimal that fits the credit type.
    BadCredit,
    /// The category field names none of the four categories.
    BadCategory,
}

/// One transcript record.
pub struct Unit {
    pub unit_id: String,
    pub unit_name: String,
    /// Credit, in tenths of a credit; always positive.
    pub unit_num: u32,
    /// Grade value, in tenths of a grade point; one of the fixed table's
    /// values (see [`grade_value_spec`]).
    pub grade_num: i32,
    pub unit_group: Category,
    pub year: String,
}

/// The grade values the fixed letter-grade table can produce, in tenths.
pub open spec fn valid_grade(g: int) -> bool {
    g == 43 || g == 40 || g == 30 || g == 20 || g == 0 || g == -20 || g == -10
}

/// A well-formed record: positive credit and a grade value out of the table.
pub open spec fn unit_wf(u: Unit) -> bool {
    u.unit_num > 0 && valid_grade(u.grade_num as int)
}

/// The fixed letter-grade table, in tenths of a grade point.
/// The in-progress sentinel maps to -2.0 and any other unrecognized
/// marker (withdrawn and the like) to -1.0.
pub open spec fn grade_value_spec(s: Seq<char>) -> int {
    if s == "A+"@ {
        43
    } else if s == "A"@ {
        40
    } else if s == "B"@ {
        30
    } else if s == "C"@ {
        20
    } else if s == "D"@ {
        0
    } else if s == "履修中"@ {
        -20
    } else {
        -10
    }
}

/// Maps a letter grade to its grade value in tenths, exactly as the fixed
/// table states it.
pub fn grade_value(grade: &String) -> (r: i32)
    ensures
        r as int == grade_value_spec(grade@),
{
    if *grade == "A+".to_owned() {
        43
    } else if *grade == "A".to_owned() {
        40
    } else if *grade == "B".to_owned() {
        30
    } else if *grade == "C".to_owned() {
        20
    } else if *grade == "D".to_owned() {
        0
    } else if *grade == "履修中".to_owned() {
        -20
    } else {
        -10
    }
}

/// Which category a category-code field names.
pub open spec fn category_spec(s: Seq<char>) -> Option<Category> {
    if s == "A"@ {
        Some(Category::A)
    } else if s == "B"@ {
        Some(Category::B)
    } else if s == "C"@ {
        Some(Category::C)
    } else if s == "C0"@ {
        Some(Category::C0)
    } else {
        None
    }
}

/// Reads a category-code field.
pub fn parse_category(s: &String) -> (r: Option<Category>)
    ensures
        r == category_spec(s@),
{
    if *s == "A".to_owned() {
        Some(Category::A)
    } else if *s == "B".to_owned() {
        Some(Category::B)
    } else if *s == "C".to_owned() {
        Some(Category::C)
    } else if *s == "C0".to_owned() {
        Some(Category::C0)
    } else {
        None
    }
}

pub open spec fn is_digit(c: char) -> bool {
    48 <= c as int && c as int <= 57
}

pub open spec fn digit_val(c: char) -> int {
    c as int - 48
}

pub open spec fn all_digits(s: Seq<char>) -> bool {
    forall|i: int| 0 <= i < s.len() ==> is_digit(s[i])
}

/// The value of a digit string read as a decimal integer.
pub open spec fn int_val(s: Seq<char>) -> int
    decreases s.len(),
{
    if s.len() == 0 {
        0
    } else {
        int_val(s.drop_last()) * 10 + digit_val(s.last())
    }
}

/// A `1.0`-style credit value: a run of digits, optionally followed by a
/// decimal point and exactly one more digit.
pub open spec fn credit_text_ok(s: Seq<char>) -> bool {
    ||| s.len() >= 1 && all_digits(s)
    ||| (s.len() >= 3 && s[s.len() - 2] == '.' && all_digits(s.subrange(0, s.len() - 2))
        && is_digit(s[s.len() - 1]))
}

/// The credit value in tenths that a well-formed credit string denotes.
pub open spec fn credit_tenths(s: Seq<char>) -> int {
    if all_digits(s) {
        int_val(s) * 10
    } else {
        int_val(s.subrange(0, s.len() - 2)) * 10 + digit_val(s[s.len() - 1])
    }
}

proof fn lemma_int_val_nonneg(s: Seq<char>)
    requires
        all_digits(s),
    ensures
        int_val(s) >= 0,
    decreases s.len(),
{
    if s.len() > 0 {
        assert(all_digits(s.drop_last()));
        lemma_int_val_nonneg(s.drop_last());
    }
}

/// A credit field is acceptable when, after its one-character type prefix,
/// it is a well-formed positive credit value that fits the credit type.
pub open spec fn credit_field_ok(f: Seq<char>) -> bool {
    &&& f.len() >= 2
    &&& credit_text_ok(f.subrange(1, f.len() as int))
    &&& 0 < credit_tenths(f.subrange(1, f.len() as int)) <= u32::MAX
}

/// A digit string's value is no less than the value of any of its prefixes.
proof fn lemma_int_val_prefix_le(s: Seq<char>, k: int)
    requires
        all_digits(s),
        0 <= k <= s.len(),
    ensures
        int_val(s.subrange(0, k)) <= int_val(s),
    decreases s.len() - k,
{
    if k == s.len() {
        assert(s.subrange(0, k) == s);
    } else {
        lemma_int_val_prefix_le(s, k + 1);
        let p = s.subrange(0, k + 1);
        assert(p.drop_last() == s.subrange(0, k));
        assert(all_digits(s.subrange(0, k)));
        lemma_int_val_nonneg(s.subrange(0, k));
        assert(int_val(p) == int_val(s.subrange(0, k)) * 10 + digit_val(s[k]));
    }
}

/// Reads a credit field's value in tenths, after its one-character type
/// prefix. `None` exactly when the field is too short, its body is not a
/// well-formed credit value, or the value does not fit the credit type.
pub fn parse_credit(field: &String) -> (r: Option<u32>)
    ensures
        field@.len() < 2 ==> r is None,
        field@.len() >= 2 ==> ({
            let body = field@.subrange(1, field@.len() as int);
            match r {
                Some(v) => credit_text_ok(body) && credit_tenths(body) <= u32::MAX && v as int
                    == credit_tenths(body),
                None => !credit_text_ok(body) || credit_tenths(body) > u32::MAX,
            }
        }),
{
    let s = field.as_str();
    let n = s.unicode_len();
    if n < 2 {
        return None;
    }
    let ghost body = field@.subrange(1, field@.len() as int);
    let dotted: bool = n >= 4 && s.get_char(n - 2) == '.';
    let digits_end: usize = if dotted {
        n - 2
    } else {
        n
    };
    let mut i: usize = 1;
    let mut acc: u64 = 0;
    proof {
        assert(body.subrange(0, 0) =~= Seq::<char>::empty());
    }
    while i < digits_end
        invariant
            2 <= n,
            n == field@.len(),
            s@ == field@,
            body == field@.subrange(1, n as int),
            dotted <==> n >= 4 && body[n - 3] == '.',
            digits_end == (if dotted {
                n - 2
            } else {
                n as int
            }),
            1 <= i <= digits_end,
            all_digits(body.subrange(0, i - 1)),
            acc as int == int_val(body.subrange(0, i - 1)),
            acc <= u32::MAX as u64,
        decreases digits_end - i,
    {
        let c = s.get_char(i);
        let d: u32 = c as u32;
        proof {
            assert(body[i - 1] == field@[i as int]);
        }
        if d < 48 || d > 57 {
            proof {
                assert(!is_digit(body[i - 1]));
                if credit_text_ok(body) {
                    if all_digits(body) {
                        assert(is_digit(body[i - 1]));
                    } else {
                        assert(body.len() >= 3 && body[body.len() - 2] == '.');
                        assert(dotted);
                        assert(i - 1 < body.len() - 2);
                        assert(body.subrange(0, body.len() - 2)[i - 1] == body[i - 1]);
                        assert(is_digit(body[i - 1]));
                    }
                }
            }
            return None;
        }
        let acc2: u64 = acc * 10 + ((d - 48) as u64);
        proof {
            let p = body.subrange(0, i as int);
            assert(p.drop_last() =~= body.subrange(0, i - 1));
            assert(p.last() == body[i - 1]);
            assert(is_digit(body[i - 1]));
            assert(digit_val(body[i - 1]) == d - 48);
            assert(acc2 as int == int_val(p));
        }
        if acc2 > u32::MAX as u64 {
            proof {
                if credit_text_ok(body) {
                    if all_digits(body) {
                        lemma_int_val_nonneg(body);
                        lemma_int_val_prefix_le(body, i as int);
                        assert(credit_tenths(body) == int_val(body) * 10);
                        assert(int_val(body) >= acc2 as int);
                    } else {
                        assert(body.len() >= 3 && body[body.len() - 2] == '.');
                        let dp = body.subrange(0, body.len() - 2);
                        assert(dotted);
                        assert(i as int <= dp.len());
                        assert(dp.subrange(0, i as int) =~= body.subrange(0, i as int));
                        lemma_int_val_nonneg(dp);
                        lemma_int_val_prefix_le(dp, i as int);
                        assert(int_val(dp) >= acc2 as int);
                        assert(is_digit(body[body.len() - 1]));
                        assert(credit_tenths(body) == int_val(dp) * 10 + digit_val(
                            body[body.len() - 1],
                        ));
                    }
                }
            }
            return None;
        }
        acc = acc2;
        i = i + 1;
    }
    if dotted {
        let c = s.get_char(n - 1);
        let d: u32 = c as u32;
        proof {
            assert(body[body.len() - 1] == field@[n - 1]);
            assert(body[body.len() - 2] == '.');
        }
        if d < 48 || d > 57 {
            proof {
                assert(!is_digit(body[body.len() - 1]));
                assert(!is_digit('.'));
                assert(!all_digits(body));
            }
            return None;
        }
        let ghost dp = body.subrange(0, body.len() - 2);
        proof {
            assert(dp =~= body.subrange(0, i - 1));
            assert(all_digits(dp));
            assert(is_digit(body[body.len() - 1]));
            assert(!is_digit('.'));
            assert(!all_digits(body));
            assert(credit_text_ok(body));
            assert(credit_tenths(body) == int_val(dp) * 10 + digit_val(body[body.len() - 1]));
            assert(digit_val(body[body.len() - 1]) == d - 48);
        }
        let v: u64 = acc * 10 + ((d - 48) as u64);
        if v > u32::MAX as u64 {
            return None;
        }
        Some(v as u32)
    } else {
        proof {
            assert(body =~= body.subrange(0, i - 1));
            assert(all_digits(body));
            assert(body.len() >= 1);
            assert(credit_text_ok(body));
            assert(credit_tenths(body) == int_val(body) * 10);
        }
        let v: u64 = acc * 10;
        if v > u32::MAX as u64 {
            return None;
        }
        Some(v as u32)
    }
}

impl Unit {
    /// Reads one transcript row into a record.
    ///
    /// A row holds exactly eleven fields: the course id and name stand in
    /// fields 2 and 3, the credit in field 4 behind a one-character type
    /// prefix, the letter grade in field 7, the category code in field 8
    /// and the year in field 9. A wrong field count, a credit that is not
    /// a positive `1.0`-style decimal in range, or an unknown category
    /// code is a fatal format error.
    pub fn new(fields: &Vec<String>) -> (r: Result<Unit, UnitError>)
        ensures
            fields@.len() != 11 ==> r == Err::<Unit, UnitError>(UnitError::WrongFieldCount),
            fields@.len() == 11 && !credit_field_ok(fields@[4]@) ==> r == Err::<Unit, UnitError>(
                UnitError::BadCredit,
            ),
            fields@.len() == 11 && credit_field_ok(fields@[4]@) && category_spec(fields@[8]@)
                is None ==> r == Err::<Unit, UnitError>(UnitError::BadCategory),
            r is Ok <==> fields@.len() == 11 && credit_field_ok(fields@[4]@) && category_spec(
                fields@[8]@,
            ) is Some,
            r matches Ok(u) ==> ({
                &&& u.unit_id@ == fields@[2]@
                &&& u.unit_name@ == fields@[3]@
                &&& u.unit_num as int == credit_tenths(
                    fields@[4]@.subrange(1, fields@[4]@.len() as int),
                )
                &&& u.grade_num as int == grade_value_spec(fields@[7]@)
                &&& category_spec(fields@[8]@) == Some(u.unit_group)
                &&& u.year@ == fields@[9]@
                &&& unit_wf(u)
            }),
    {
        if fields.len() != 11 {
            return Err(UnitError::WrongFieldCount);
        }
        let unit_num: u32 = match parse_credit(&fields[4]) {
            Some(v) => v,
            None => {
                return Err(UnitError::BadCredit);
            },
        };
        if unit_num == 0 {
            return Err(UnitError::BadCredit);
        }
        let unit_group = match parse_category(&fields[8]) {
            Some(g) => g,
            None => {
                return Err(UnitError::BadCategory);
            },
        };
        let grade_num = grade_value(&fields[7]);
        Ok(
            Unit {
                unit_id: fields[2].clone(),
                unit_name: fields[3].clone(),
                unit_num,
                grade_num,
                unit_group,
                year: fields[9].clone(),
            },
        )
    }
}

} // verus!

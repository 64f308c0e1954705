use vstd::prelude::*;
use vstd::string::*;

use crate::error::Error;
use crate::value::{Model, Value};

verus! {

/// The value of a digit character.
pub open spec fn digit_value(c: char) -> int {
    (c as int) - ('0' as int)
}

/// The number that a run of digits spells in decimal.
pub open spec fn decimal_value(t: Seq<char>) -> int
    decreases t.len(),
{
    if t.len() == 0 {
        0
    } else {
        decimal_value(t.drop_last()) * 10 + digit_value(t.last())
    }
}

/// How many dots the text holds.
pub open spec fn dot_count(t: Seq<char>) -> int
    decreases t.len(),
{
    if t.len() == 0 {
        0
    } else {
        dot_count(t.drop_last()) + if t.last() == '.' {
            1int
        } else {
            0int
        }
    }
}

/// The value of a number span, made only of digits and dots and starting
/// with a digit: an integer where it has no dot and fits in 64 signed bits,
/// else a decimal where it has at most one dot; with two dots or more it is
/// no number.
pub open spec fn number_model(t: Seq<char>) -> Result<Model, Seq<char>> {
    if dot_count(t) == 0 && decimal_value(t) <= i64::MAX {
        Ok(Model::Int(decimal_value(t)))
    } else if dot_count(t) <= 1 {
        Ok(Model::Float(t))
    } else {
        Err(t)
    }
}

/// The value of a prefix of a run of digits is at most that of the run.
pub proof fn lemma_decimal_grows(t: Seq<char>, i: int)
    requires
        0 <= i <= t.len(),
        forall|j: int| 0 <= j < t.len() ==> '0' <= #[trigger] t[j] <= '9',
    ensures
        decimal_value(t.subrange(0, i)) <= decimal_value(t),
        decimal_value(t.subrange(0, i)) >= 0,
    decreases t.len() - i,
{
    if i < t.len() {
        lemma_decimal_grows(t, i + 1);
        assert(t.subrange(0, i + 1).drop_last() == t.subrange(0, i));
    } else {
        assert(t.subrange(0, i) == t);
    }
    lemma_decimal_nonneg(t.subrange(0, i));
}

proof fn lemma_decimal_nonneg(t: Seq<char>)
    requires
        forall|j: int| 0 <= j < t.len() ==> '0' <= #[trigger] t[j] <= '9',
    ensures
        decimal_value(t) >= 0,
    decreases t.len(),
{
    if t.len() > 0 {
        lemma_decimal_nonneg(t.drop_last());
    }
}

/// Reads a number span as [`number_model`] describes.
pub fn number_value(n: &str) -> (r: Result<Value, Error>)
    requires
        forall|j: int| 0 <= j < n@.len() ==> ('0' <= #[trigger] n@[j] <= '9' || n@[j] == '.'),
    ensures
        match number_model(n@) {
            Ok(m) => r is Ok && r->Ok_0@ == m,
            Err(t) => r is Err && r->Err_0@ == crate::error::Fault::InvalidNumber(t),
        },
{
    let len = n.unicode_len();
    let mut dots: usize = 0;
    let mut acc: u64 = 0;
    let mut fits = true;
    let mut i: usize = 0;
    while i < len
        invariant
            len == n@.len(),
            i <= len,
            dots as int == dot_count(n@.subrange(0, i as int)),
            dots <= i,
            dots == 0 ==> (fits <==> decimal_value(n@.subrange(0, i as int)) <= i64::MAX),
            dots == 0 && fits ==> acc as int == decimal_value(n@.subrange(0, i as int)),
            forall|j: int| 0 <= j < n@.len() ==> ('0' <= #[trigger] n@[j] <= '9' || n@[j] == '.'),
        decreases len - i,
    {
        let c = n.get_char(i);
        let ghost pre = n@.subrange(0, i as int);
        assert(n@.subrange(0, i + 1).drop_last() == pre);
        if c == '.' {
            dots = dots + 1;
        } else if dots == 0 && fits {
            let d = (c as u64) - ('0' as u64);
            if acc <= (9223372036854775807u64 - d) / 10 {
                acc = acc * 10 + d;
            } else {
                fits = false;
            }
        } else if dots == 0 {
            proof {
                assert forall|j: int| 0 <= j < pre.len() implies '0' <= #[trigger] pre[j] <= '9' by {
                    assert(pre[j] == n@[j]);
                    lemma_no_dots(pre, j);
                }
                lemma_decimal_nonneg(pre);
            }
        }
        i = i + 1;
    }
    assert(n@.subrange(0, len as int) == n@);
    if dots == 0 && fits {
        Ok(Value::Int(acc as i64))
    } else if dots <= 1 {
        Ok(Value::Float(String::from_str(n)))
    } else {
        Err(Error::InvalidNumber(String::from_str(n)))
    }
}

proof fn lemma_no_dots(t: Seq<char>, j: int)
    requires
        dot_count(t) == 0,
        0 <= j < t.len(),
    ensures
        t[j] != '.',
    decreases t.len(),
{
    lemma_dot_count_nonneg(t.drop_last());
    if j < t.len() - 1 {
        assert(t.drop_last()[j] == t[j]);
        lemma_no_dots(t.drop_last(), j);
    }
}

proof fn lemma_dot_count_nonneg(t: Seq<char>)
    ensures
        dot_count(t) >= 0,
    decreases t.len(),
{
    if t.len() > 0 {
        lemma_dot_count_nonneg(t.drop_last());
    }
}

} // verus!

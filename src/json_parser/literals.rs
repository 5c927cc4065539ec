//! Decoding of number literals and hexadecimal digits.
use vstd::prelude::*;
use crate::json_parser::grammar::{
    all_digits, digits_value, hex_value, int_text_value, is_digit, is_float_text, unsigned_part,
};

verus! {

/// The value of a hexadecimal digit, or `None` for any other character.
pub fn hex_digit_value(c: char) -> (r: Option<u32>)
    ensures
        r matches Some(v) ==> hex_value(c) == v as int && v < 16,
        r is None ==> hex_value(c) == -1,
{
    if '0' <= c && c <= '9' {
        Some(c as u32 - 48)
    } else if 'a' <= c && c <= 'f' {
        Some(c as u32 - 87)
    } else if 'A' <= c && c <= 'F' {
        Some(c as u32 - 55)
    } else {
        None
    }
}

/// Whether `t` is a floating-point literal: an optional minus sign, then
/// digits with exactly one point, and at least one digit.
pub fn is_float_literal(t: &Vec<char>) -> (r: bool)
    ensures
        r == is_float_text(t@),
{
    let ghost d = unsigned_part(t@);
    let start: usize = if t.len() > 0 && t[0] == '-' {
        1
    } else {
        0
    };
    assert(d.len() == t.len() - start);
    assert(forall|i: int| 0 <= i < d.len() ==> #[trigger] d[i] == t@[i + start]);
    let mut k: usize = start;
    while k < t.len() && t[k] != '.'
        invariant
            start <= k <= t.len(),
            forall|j: int| start <= j < k ==> t@[j] != '.',
        decreases t.len() - k,
    {
        k = k + 1;
    }
    if k == t.len() {
        assert forall|k2: int| 0 <= k2 < d.len() implies d[k2] != '.' by {
            assert(d[k2] == t@[k2 + start]);
        }
        return false;
    }
    let mut i: usize = start;
    while i < t.len()
        invariant
            start <= i <= t.len(),
            start <= k < t.len(),
            t@[k as int] == '.',
            forall|j: int| start <= j < k ==> t@[j] != '.',
            d == unsigned_part(t@),
            d.len() == t.len() - start,
            forall|j: int| 0 <= j < d.len() ==> #[trigger] d[j] == t@[j + start],
            forall|j: int| start <= j < i && j != k ==> is_digit(#[trigger] t@[j]),
        decreases t.len() - i,
    {
        if i != k && !('0' <= t[i] && t[i] <= '9') {
            proof {
                let bad = i - start;
                assert forall|k2: int|
                    0 <= k2 < d.len() && d[k2] == '.' implies !(forall|i2: int|
                    0 <= i2 < d.len() && i2 != k2 ==> is_digit(#[trigger] d[i2])) by {
                    if k2 + start < k {
                        assert(t@[k2 + start] != '.');
                    } else if k2 + start != k {
                        assert(d[k - start] == t@[k as int]);
                        assert(!is_digit(d[k - start]));
                    } else {
                        assert(d[bad] == t@[i as int]);
                        assert(!is_digit(d[bad]));
                    }
                }
            }
            return false;
        }
        i = i + 1;
    }
    proof {
        let kd = k - start;
        assert(d[kd] == '.');
        assert forall|i2: int| 0 <= i2 < d.len() && i2 != kd implies is_digit(#[trigger] d[i2]) by {
            assert(d[i2] == t@[i2 + start]);
        }
    }
    t.len() - start >= 2
}

pub proof fn lemma_digits_value_nonneg(d: Seq<char>)
    requires
        all_digits(d),
    ensures
        digits_value(d) >= 0,
    decreases d.len(),
{
    if d.len() > 0 {
        assert(all_digits(d.drop_last()));
        lemma_digits_value_nonneg(d.drop_last());
        assert(is_digit(d[d.len() - 1]));
    }
}

/// Reading more digits never makes the value smaller.
pub proof fn lemma_digits_value_grows(d: Seq<char>, m: int)
    requires
        all_digits(d),
        0 <= m <= d.len(),
    ensures
        digits_value(d.take(m)) <= digits_value(d),
    decreases d.len(),
{
    if m < d.len() {
        assert(d.drop_last().take(m) =~= d.take(m));
        assert(all_digits(d.drop_last()));
        lemma_digits_value_grows(d.drop_last(), m);
        lemma_digits_value_nonneg(d.drop_last());
        assert(is_digit(d[d.len() - 1]));
    } else {
        assert(d.take(m) =~= d);
    }
}

/// The integer that `t` spells as an optional minus sign and decimal digits,
/// if it does and the integer fits in an `i128`.
pub fn int_value(t: &Vec<char>) -> (r: Option<i128>)
    ensures
        r matches Some(i) ==> int_text_value(t@) == Some(i as int),
        r is None ==> int_text_value(t@) is None,
{
    let ghost d = unsigned_part(t@);
    let neg = t.len() > 0 && t[0] == '-';
    let start: usize = if neg {
        1
    } else {
        0
    };
    assert(d.len() == t.len() - start);
    assert(forall|i: int| 0 <= i < d.len() ==> #[trigger] d[i] == t@[i + start]);
    if start >= t.len() {
        return None;
    }
    let mut acc: i128 = 0;
    let mut i: usize = start;
    while i < t.len()
        invariant
            start <= i <= t.len(),
            start <= 1,
            d == unsigned_part(t@),
            neg == (t@.len() > 0 && t@[0] == '-'),
            d.len() == t.len() - start,
            forall|j: int| 0 <= j < d.len() ==> #[trigger] d[j] == t@[j + start],
            all_digits(d.take(i - start)),
            acc == if neg {
                -digits_value(d.take(i - start))
            } else {
                digits_value(d.take(i - start))
            },
        decreases t.len() - i,
    {
        let c = t[i];
        let ghost n = i - start;
        assert(d.take(n + 1).drop_last() =~= d.take(n));
        assert(d[n] == c);
        assert(d.take(n + 1).last() == c);
        if !('0' <= c && c <= '9') {
            assert(!is_digit(d[n]));
            return None;
        }
        assert(all_digits(d.take(n + 1)));
        let dv: i128 = (c as u32 - 48) as i128;
        let ghost next = digits_value(d.take(n + 1));
        proof {
            lemma_digits_value_nonneg(d.take(n));
        }
        assert(next == digits_value(d.take(n)) * 10 + dv);
        let widened = acc.checked_mul(10);
        if widened.is_none() {
            proof {
                lemma_out_of_range(d, n + 1, neg);
            }
            return None;
        }
        let m = widened.unwrap();
        let stepped = if neg {
            m.checked_sub(dv)
        } else {
            m.checked_add(dv)
        };
        if stepped.is_none() {
            proof {
                lemma_out_of_range(d, n + 1, neg);
            }
            return None;
        }
        acc = stepped.unwrap();
        i = i + 1;
    }
    assert(d.take(d.len() as int) =~= d);
    Some(acc)
}

/// When a prefix of the digits is already out of the `i128` range, so is the
/// whole literal, or it is not a literal at all.
proof fn lemma_out_of_range(d: Seq<char>, m: int, neg: bool)
    requires
        0 <= m <= d.len(),
        all_digits(d.take(m)),
        neg ==> -digits_value(d.take(m)) < i128::MIN,
        !neg ==> digits_value(d.take(m)) > i128::MAX,
    ensures
        !(all_digits(d) && (if neg {
            i128::MIN <= -digits_value(d)
        } else {
            digits_value(d) <= i128::MAX
        })),
{
    if all_digits(d) {
        lemma_digits_value_grows(d, m);
    }
}

} // verus!

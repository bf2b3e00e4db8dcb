//! Number literals: what `str::parse::<i64>` and `str::parse::<f64>` accept among the
//! strings the lexer collects (numeric characters and dots).

use vstd::prelude::*;

verus! {

/// An ASCII decimal digit.
pub open spec fn is_ascii_digit(c: char) -> bool {
    '0' <= c && c <= '9'
}

/// The value of one ASCII digit.
pub open spec fn digit_value(c: char) -> int {
    c as int - '0' as int
}

/// Whether every character is an ASCII digit.
pub open spec fn all_ascii_digits(s: Seq<char>) -> bool {
    forall|i: int| 0 <= i < s.len() ==> #[trigger] is_ascii_digit(s[i])
}

/// The value of a string of decimal digits, most significant first.
pub open spec fn decimal_value(s: Seq<char>) -> int
    decreases s.len(),
{
    if s.len() == 0 {
        0
    } else {
        decimal_value(s.drop_last()) * 10 + digit_value(s.last())
    }
}

/// What `str::parse::<i64>` gives on a string without a sign: the value when the string
/// is a non-empty run of ASCII digits whose value fits in an `i64`, else nothing.
pub open spec fn unsigned_i64(s: Seq<char>) -> Option<i64> {
    if s.len() > 0 && all_ascii_digits(s) && decimal_value(s) <= i64::MAX {
        Some(decimal_value(s) as i64)
    } else {
        None
    }
}

/// Whether `str::parse::<f64>` accepts a string made only of numeric characters and
/// dots: it must be ASCII digits around exactly one dot, with at least one digit.
pub open spec fn is_float_literal(s: Seq<char>) -> bool {
    s.len() >= 2 && exists|k: int|
        0 <= k < s.len() && s[k] == '.' && forall|j: int|
            0 <= j < s.len() && j != k ==> #[trigger] is_ascii_digit(s[j])
}

proof fn lemma_decimal_value_nonneg(s: Seq<char>)
    requires
        all_ascii_digits(s),
    ensures
        decimal_value(s) >= 0,
    decreases s.len(),
{
    if s.len() > 0 {
        assert(is_ascii_digit(s[s.len() - 1]));
        lemma_decimal_value_nonneg(s.drop_last());
    }
}

/// A digit string is worth at least as much as any of its prefixes.
proof fn lemma_decimal_value_grows(s: Seq<char>, n: int)
    requires
        all_ascii_digits(s),
        0 <= n <= s.len(),
    ensures
        decimal_value(s.take(n)) <= decimal_value(s),
    decreases s.len(),
{
    if n < s.len() {
        let d = s.drop_last();
        assert(all_ascii_digits(d)) by {
            assert forall|i: int| 0 <= i < d.len() implies #[trigger] is_ascii_digit(d[i]) by {
                assert(d[i] == s[i]);
            }
        }
        assert(is_ascii_digit(s[s.len() - 1]));
        lemma_decimal_value_grows(d, n);
        assert(d.take(n) =~= s.take(n));
        lemma_decimal_value_nonneg(d);
    } else {
        assert(s.take(n) =~= s);
    }
}

/// Parse a string of decimal digits as an `i64`, the way `str::parse::<i64>` does
/// for a string without a sign.
pub(crate) fn parse_unsigned_i64(s: &[char]) -> (r: Option<i64>)
    ensures
        r == unsigned_i64(s@),
{
    if s.len() == 0 {
        return None;
    }
    let mut i: usize = 0;
    while i < s.len()
        invariant
            i <= s@.len(),
            all_ascii_digits(s@.take(i as int)),
        decreases s@.len() - i,
    {
        let c = s[i];
        if !('0' <= c && c <= '9') {
            assert(!is_ascii_digit(s@[i as int]));
            return None;
        }
        assert(s@.take(i + 1).drop_last() =~= s@.take(i as int));
        i = i + 1;
    }
    assert(s@.take(s@.len() as int) =~= s@);
    let mut acc: i64 = 0;
    let mut k: usize = 0;
    while k < s.len()
        invariant
            k <= s@.len(),
            all_ascii_digits(s@),
            acc as int == decimal_value(s@.take(k as int)),
        decreases s@.len() - k,
    {
        let c = s[k];
        assert(is_ascii_digit(s@[k as int]));
        let d: i64 = ((c as u32) - ('0' as u32)) as i64;
        assert(s@.take(k + 1).drop_last() =~= s@.take(k as int));
        match acc.checked_mul(10) {
            Some(m) => match m.checked_add(d) {
                Some(v) => {
                    acc = v;
                },
                None => {
                    proof {
                        lemma_decimal_value_grows(s@, k + 1);
                    }
                    return None;
                },
            },
            None => {
                proof {
                    lemma_decimal_value_grows(s@, k + 1);
                    lemma_decimal_value_nonneg(s@.take(k as int));
                }
                return None;
            },
        }
        k = k + 1;
    }
    assert(s@.take(s@.len() as int) =~= s@);
    Some(acc)
}

/// Whether a string of numeric characters and dots is a literal that
/// `str::parse::<f64>` accepts.
pub(crate) fn check_float_literal(s: &[char]) -> (r: bool)
    ensures
        r == is_float_literal(s@),
{
    if s.len() < 2 {
        return false;
    }
    let mut dot: Option<usize> = None;
    let mut i: usize = 0;
    while i < s.len()
        invariant
            i <= s@.len(),
            s@.len() >= 2,
            match dot {
                None => forall|j: int| 0 <= j < i ==> #[trigger] is_ascii_digit(s@[j]),
                Some(k) => k < i && s@[k as int] == '.' && forall|j: int|
                    0 <= j < i && j != k ==> #[trigger] is_ascii_digit(s@[j]),
            },
        decreases s@.len() - i,
    {
        let c = s[i];
        if c == '.' {
            match dot {
                Some(k) => {
                    proof {
                        assert forall|k2: int|
                            0 <= k2 < s@.len() && s@[k2] == '.' implies !(forall|j: int|
                            0 <= j < s@.len() && j != k2 ==> #[trigger] is_ascii_digit(s@[j])) by {
                            if k2 == k {
                                assert(!is_ascii_digit(s@[i as int]));
                            } else {
                                assert(!is_ascii_digit(s@[k as int]));
                            }
                        }
                    }
                    return false;
                },
                None => {
                    dot = Some(i);
                },
            }
        } else if !('0' <= c && c <= '9') {
            proof {
                assert forall|k2: int|
                    0 <= k2 < s@.len() && s@[k2] == '.' implies !(forall|j: int|
                    0 <= j < s@.len() && j != k2 ==> #[trigger] is_ascii_digit(s@[j])) by {
                    assert(!is_ascii_digit(s@[i as int]));
                }
            }
            return false;
        }
        i = i + 1;
    }
    match dot {
        Some(k) => {
            assert(s@[k as int] == '.');
            true
        },
        None => {
            assert forall|k2: int|
                0 <= k2 < s@.len() && s@[k2] == '.' implies !(forall|j: int|
                0 <= j < s@.len() && j != k2 ==> #[trigger] is_ascii_digit(s@[j])) by {
                assert(is_ascii_digit(s@[k2]));
            }
            false
        },
    }
}

} // verus!

//! Reading a decimal numeral as a `u32`, exactly as the standard library's
//! integer parser does: an optional leading `+`, then one or more decimal
//! digits, rejected as soon as a non-digit or an overflow is met.

use vstd::prelude::*;

verus! {

/// Why a piece of text is not a `u32` numeral.
#[derive(Clone, Copy, Debug, PartialEq, Eq, Structural)]
pub enum NumError {
    /// The text was empty.
    Empty,
    /// A character other than a decimal digit was met.
    InvalidDigit,
    /// The value does not fit in a `u32`.
    Overflow,
}

/// Is `c` a decimal digit?
pub open spec fn is_digit(c: char) -> bool {
    48 <= c as int && c as int <= 57
}

/// Numeric value of the digit `c`.
pub open spec fn digit_val(c: char) -> int {
    c as int - 48
}

/// The digits with an optional leading `+` removed.
pub open spec fn strip_plus(s: Seq<char>) -> Seq<char> {
    if s.len() > 0 && s[0] == '+' {
        s.drop_first()
    } else {
        s
    }
}

/// Every character of `s` is a decimal digit.
pub open spec fn all_digits(s: Seq<char>) -> bool {
    forall|j: int| 0 <= j < s.len() ==> is_digit(#[trigger] s[j])
}

/// Value of a digit string read in base ten.
pub open spec fn digits_val(s: Seq<char>) -> int
    decreases s.len(),
{
    if s.len() == 0 {
        0
    } else {
        digits_val(s.drop_last()) * 10 + digit_val(s.last())
    }
}

/// Length of the longest digit-only prefix of `s`.
pub open spec fn digit_prefix_len(s: Seq<char>) -> int
    decreases s.len(),
{
    if s.len() == 0 {
        0
    } else if !is_digit(s.first()) {
        0
    } else {
        1 + digit_prefix_len(s.drop_first())
    }
}

/// `s` is a well-formed numeral: after stripping a leading `+`, one or
/// more characters, all of them digits.
pub open spec fn is_numeral(s: Seq<char>) -> bool {
    strip_plus(s).len() > 0 && all_digits(strip_plus(s))
}

/// What reading `s` as a `u32` returns.  The digits are consumed from the
/// left; the first offence decides the error, so a value that has already
/// outgrown `u32` is reported as `Overflow` even if a later character is
/// not a digit.
pub open spec fn spec_parse_u32(s: Seq<char>) -> Result<u32, NumError> {
    let t = strip_plus(s);
    let k = digit_prefix_len(t);
    if s.len() == 0 {
        Err(NumError::Empty)
    } else if t.len() == 0 {
        Err(NumError::InvalidDigit)
    } else if digits_val(t.take(k)) > u32::MAX {
        Err(NumError::Overflow)
    } else if k < t.len() {
        Err(NumError::InvalidDigit)
    } else {
        Ok(digits_val(t) as u32)
    }
}

proof fn lemma_digit_prefix_len_bounds(s: Seq<char>)
    ensures
        0 <= digit_prefix_len(s) <= s.len(),
        forall|j: int| 0 <= j < digit_prefix_len(s) ==> is_digit(#[trigger] s[j]),
        digit_prefix_len(s) < s.len() ==> !is_digit(s[digit_prefix_len(s)]),
    decreases s.len(),
{
    if s.len() == 0 {
    } else if !is_digit(s.first()) {
    } else {
        let df = s.drop_first();
        lemma_digit_prefix_len_bounds(df);
        let k = digit_prefix_len(s);
        assert(k == 1 + digit_prefix_len(df));
        assert forall|j: int| 0 <= j < k implies is_digit(#[trigger] s[j]) by {
            if j == 0 {
                assert(is_digit(s[0]));
            } else {
                assert(df[j - 1] == s[j]);
                assert(is_digit(df[j - 1]));
            }
        }
        if k < s.len() {
            assert(df[k - 1] == s[k]);
            assert(!is_digit(df[k - 1]));
        }
    }
}

proof fn lemma_digit_prefix_len_at_least(s: Seq<char>, m: int)
    requires
        0 <= m <= s.len(),
        forall|j: int| 0 <= j < m ==> is_digit(#[trigger] s[j]),
    ensures
        digit_prefix_len(s) >= m,
    decreases s.len(),
{
    lemma_digit_prefix_len_bounds(s);
    if m > 0 {
        assert(is_digit(s[0]));
        assert(is_digit(s.first()));
        let df = s.drop_first();
        assert forall|j: int| 0 <= j < m - 1 implies is_digit(#[trigger] df[j]) by {
            assert(df[j] == s[j + 1]);
            assert(is_digit(s[j + 1]));
        }
        lemma_digit_prefix_len_at_least(df, m - 1);
    }
}

proof fn lemma_digits_val_step(s: Seq<char>, i: int)
    requires
        0 <= i < s.len(),
    ensures
        digits_val(s.take(i + 1)) == digits_val(s.take(i)) * 10 + digit_val(s[i]),
{
    assert(s.take(i + 1).drop_last() =~= s.take(i));
    assert(s.take(i + 1).last() == s[i]);
}

proof fn lemma_digits_val_nonneg(s: Seq<char>)
    requires
        all_digits(s),
    ensures
        digits_val(s) >= 0,
    decreases s.len(),
{
    if s.len() > 0 {
        assert(all_digits(s.drop_last()));
        lemma_digits_val_nonneg(s.drop_last());
        assert(digit_val(s.last()) >= 0);
    }
}

/// Among digits only, a longer prefix never has a smaller value.
proof fn lemma_digits_val_mono(s: Seq<char>, a: int, b: int)
    requires
        0 <= a <= b <= s.len(),
        forall|j: int| 0 <= j < b ==> is_digit(#[trigger] s[j]),
    ensures
        digits_val(s.take(a)) <= digits_val(s.take(b)),
    decreases b - a,
{
    if a < b {
        lemma_digits_val_mono(s, a, b - 1);
        lemma_digits_val_step(s, b - 1);
        assert(all_digits(s.take(b - 1)));
        lemma_digits_val_nonneg(s.take(b - 1));
    }
}

/// Reads `s` as a decimal `u32`, with the standard library's acceptance
/// and rejection behaviour.
pub fn parse_u32(s: &str) -> (r: Result<u32, NumError>)
    ensures
        r == spec_parse_u32(s@),
        r is Ok <==> is_numeral(s@) && digits_val(strip_plus(s@)) <= u32::MAX,
        r is Ok ==> r->Ok_0 == digits_val(strip_plus(s@)),
{
    let n = s.unicode_len();
    proof {
        lemma_digit_prefix_len_bounds(strip_plus(s@));
    }
    if n == 0 {
        return Err(NumError::Empty);
    }
    let c0 = s.get_char(0);
    let start: usize = if c0 == '+' {
        1
    } else {
        0
    };
    let ghost t = strip_plus(s@);
    proof {
        assert(t =~= s@.subrange(start as int, n as int));
    }
    if n == start {
        proof {
            assert(t.len() == 0);
        }
        return Err(NumError::InvalidDigit);
    }
    let mut i: usize = start;
    let mut acc: u32 = 0;
    while i < n
        invariant
            start <= i <= n,
            n == s@.len(),
            start <= 1,
            t == strip_plus(s@),
            t =~= s@.subrange(start as int, n as int),
            t.len() == n - start,
            s@.len() > 0,
            t.len() > 0,
            forall|j: int| 0 <= j < i - start ==> is_digit(#[trigger] t[j]),
            acc == digits_val(t.take(i - start)),
        decreases n - i,
    {
        let c = s.get_char(i);
        let d = c as u32;
        proof {
            assert(t[i - start] == s@[i as int]);
        }
        if d < 48 || d > 57 {
            proof {
                lemma_digit_prefix_len_at_least(t, i - start);
                lemma_digit_prefix_len_bounds(t);
                assert(digit_prefix_len(t) == i - start) by {
                    if digit_prefix_len(t) > i - start {
                        assert(is_digit(t[i - start]));
                    }
                }
                assert(!all_digits(t)) by {
                    assert(!is_digit(t[i - start]));
                }
            }
            return Err(NumError::InvalidDigit);
        }
        let dv = d - 48;
        if acc > 429496729 || (acc == 429496729 && dv > 5) {
            proof {
                let k = digit_prefix_len(t);
                lemma_digit_prefix_len_at_least(t, i - start + 1);
                lemma_digit_prefix_len_bounds(t);
                lemma_digits_val_step(t, i - start);
                assert(digits_val(t.take(i - start + 1)) > u32::MAX);
                lemma_digits_val_mono(t, i - start + 1, k);
                assert(digits_val(t.take(k)) > u32::MAX);
                if all_digits(t) {
                    lemma_digit_prefix_len_at_least(t, t.len() as int);
                    assert(k == t.len());
                    assert(t.take(k) =~= t);
                    assert(digits_val(t) > u32::MAX);
                }
            }
            return Err(NumError::Overflow);
        }
        proof {
            lemma_digits_val_step(t, i - start);
        }
        acc = acc * 10 + dv;
        i = i + 1;
    }
    proof {
        let k = digit_prefix_len(t);
        lemma_digit_prefix_len_at_least(t, t.len() as int);
        lemma_digit_prefix_len_bounds(t);
        assert(k == t.len());
        assert(t.take(k) =~= t);
    }
    Ok(acc)
}

} // verus!

//! Unsigned decimal integers written as text.
use crate::text::{
    digit_of, digit_value, is_digit, lemma_run_end, lemma_run_end_unique, run_end, slice,
    spec_is_digit, CharClass,
};
use vstd::prelude::*;

verus! {

/// Why a text is not an unsigned 64-bit integer.
#[derive(Clone, Copy, Debug, PartialEq, Eq)]
pub enum IntegerError {
    /// The text is empty.
    Empty,
    /// The text holds a character that is not a digit in its place, or
    /// it is a sign and nothing else.
    InvalidDigit,
    /// The digits denote a number above `u64::MAX`.
    Overflow,
}

/// Whether every character of `s` is an ASCII decimal digit.
pub open spec fn all_digits(s: Seq<char>) -> bool {
    forall|i: int| 0 <= i < s.len() ==> spec_is_digit(#[trigger] s[i])
}

/// The number that a sequence of decimal digits denotes, the most
/// significant digit first. The empty sequence denotes 0.
pub open spec fn digits_value(s: Seq<char>) -> nat
    decreases s.len(),
{
    if s.len() == 0 {
        0
    } else {
        digits_value(s.drop_last()) * 10 + digit_value(s.last())
    }
}

/// Ten to the power of `n`.
pub open spec fn pow10(n: nat) -> nat
    decreases n,
{
    if n == 0 {
        1
    } else {
        pow10((n - 1) as nat) * 10
    }
}

/// What a text denotes as an unsigned 64-bit integer.
///
/// The text is a `+` sign, which may be absent, and then one or more
/// decimal digits. It is read from the left: a number that has grown
/// above `u64::MAX` is reported as such even if a character that is no
/// digit follows.
pub open spec fn spec_parse(s: Seq<char>) -> Result<u64, IntegerError> {
    if s.len() == 0 {
        Err(IntegerError::Empty)
    } else {
        let body = if s[0] == '+' {
            s.skip(1)
        } else {
            s
        };
        let run = run_end(body, 0, CharClass::Digit);
        if body.len() == 0 {
            Err(IntegerError::InvalidDigit)
        } else if digits_value(body.take(run)) > u64::MAX {
            Err(IntegerError::Overflow)
        } else if run < body.len() {
            Err(IntegerError::InvalidDigit)
        } else {
            Ok(digits_value(body) as u64)
        }
    }
}

/// Appending a digit multiplies the number by ten and adds the digit.
pub proof fn lemma_digits_value_push(s: Seq<char>, c: char)
    ensures
        digits_value(s.push(c)) == digits_value(s) * 10 + digit_value(c),
{
    assert(s.push(c).drop_last() == s);
}

/// The number that the first `k + 1` characters denote, from the one
/// that the first `k` denote.
pub proof fn lemma_digits_value_step(s: Seq<char>, k: int)
    requires
        0 <= k < s.len(),
    ensures
        digits_value(s.take(k + 1)) == digits_value(s.take(k)) * 10 + digit_value(s[k]),
{
    assert(s.take(k + 1).drop_last() == s.take(k));
}

/// A longer prefix of digits denotes a number that is no smaller.
pub proof fn lemma_digits_value_grows(s: Seq<char>, j: int, k: int)
    requires
        0 <= j <= k <= s.len(),
    ensures
        digits_value(s.take(j)) <= digits_value(s.take(k)),
    decreases k - j,
{
    if j < k {
        lemma_digits_value_grows(s, j, k - 1);
        lemma_digits_value_step(s, k - 1);
    }
}

/// The number that two sequences of digits denote when one is written
/// after the other.
pub proof fn lemma_digits_value_concat(a: Seq<char>, b: Seq<char>)
    ensures
        digits_value(a + b) == digits_value(a) * pow10(b.len()) + digits_value(b),
    decreases b.len(),
{
    if b.len() == 0 {
        assert(a + b == a);
        assert(pow10(0) == 1);
        assert(digits_value(a) * 1 == digits_value(a));
    } else {
        let front = b.drop_last();
        let whole = a + b;
        assert(whole.len() > 0);
        assert(whole.drop_last() == a + front);
        assert(whole.last() == b.last());
        assert(front.len() == b.len() - 1);
        lemma_digits_value_concat(a, front);
        let x = digits_value(a);
        let y = digits_value(front);
        let p = pow10(front.len());
        let last = digit_value(b.last());
        assert(pow10(b.len()) == p * 10);
        assert(digits_value(a + front) == x * p + y);
        assert(digits_value(whole) == digits_value(whole.drop_last()) * 10 + last);
        assert(digits_value(b) == y * 10 + last);
        assert((x * p + y) * 10 == x * (p * 10) + y * 10) by (nonlinear_arith);
        assert(digits_value(whole) == x * (p * 10) + y * 10 + last);
    }
}

/// A sequence of digits denotes a number below ten to the power of its
/// length.
pub proof fn lemma_digits_value_bound(s: Seq<char>)
    requires
        all_digits(s),
    ensures
        digits_value(s) < pow10(s.len()),
    decreases s.len(),
{
    if s.len() > 0 {
        lemma_digits_value_bound(s.drop_last());
        assert(spec_is_digit(s.last()));
    }
}

/// Ten to the power of `n` is at least 1.
pub proof fn lemma_pow10_positive(n: nat)
    ensures
        pow10(n) >= 1,
    decreases n,
{
    if n > 0 {
        lemma_pow10_positive((n - 1) as nat);
    }
}

/// Ten to the power of a sum is the product of the powers.
pub proof fn lemma_pow10_adds(a: nat, b: nat)
    ensures
        pow10(a + b) == pow10(a) * pow10(b),
    decreases b,
{
    if b > 0 {
        let less = (b - 1) as nat;
        lemma_pow10_adds(a, less);
        assert(pow10(a + b) == pow10(a + less) * 10);
        assert(pow10(a) * pow10(less) * 10 == pow10(a) * (pow10(less) * 10)) by (nonlinear_arith);
    } else {
        assert(pow10(a) * 1 == pow10(a));
    }
}

/// A larger exponent gives a power of ten that is no smaller.
pub proof fn lemma_pow10_grows(a: nat, b: nat)
    requires
        a <= b,
    ensures
        pow10(a) <= pow10(b),
    decreases b - a,
{
    if a < b {
        lemma_pow10_grows(a, (b - 1) as nat);
    }
}

/// Reads `v` as an unsigned 64-bit integer.
pub fn parse(v: &Vec<char>) -> (r: Result<u64, IntegerError>)
    ensures
        r == spec_parse(v@),
{
    if v.len() == 0 {
        return Err(IntegerError::Empty);
    }
    let from: usize = if v[0] == '+' {
        1
    } else {
        0
    };
    let body = slice(v, from, v.len());
    assert(body@ == if v@[0] == '+' {
        v@.skip(1)
    } else {
        v@
    });
    if body.len() == 0 {
        return Err(IntegerError::InvalidDigit);
    }
    let mut value: u64 = 0;
    let mut i: usize = 0;
    while i < body.len()
        invariant
            i <= body.len(),
            0 < body.len(),
            0 < v.len(),
            body@ == if v@[0] == '+' {
                v@.skip(1)
            } else {
                v@
            },
            value == digits_value(body@.take(i as int)),
            forall|j: int| 0 <= j < i ==> spec_is_digit(#[trigger] body@[j]),
        decreases body.len() - i,
    {
        let c = body[i];
        if !is_digit(c) {
            proof {
                lemma_run_end_unique(body@, 0, CharClass::Digit, i as int);
            }
            return Err(IntegerError::InvalidDigit);
        }
        let d = digit_of(c);
        proof {
            lemma_digits_value_step(body@, i as int);
        }
        if value > (u64::MAX - d as u64) / 10 {
            proof {
                let run = run_end(body@, 0, CharClass::Digit);
                lemma_run_end(body@, 0, CharClass::Digit);
                if run < i + 1 {
                    assert(!spec_is_digit(body@[run]));
                }
                lemma_digits_value_grows(body@, i + 1, run);
            }
            return Err(IntegerError::Overflow);
        }
        value = value * 10 + d as u64;
        i += 1;
    }
    proof {
        lemma_run_end_unique(body@, 0, CharClass::Digit, body.len() as int);
        assert(body@.take(body.len() as int) == body@);
    }
    Ok(value)
}

/// The character that stands for a number below ten.
pub open spec fn digit_char(d: nat) -> char
    recommends
        d < 10,
{
    ((d + 48) as u8) as char
}

/// The decimal digits of `n`, without a zero in front of them.
pub open spec fn numeral(n: nat) -> Seq<char>
    decreases n,
{
    if n < 10 {
        seq![digit_char(n)]
    } else {
        numeral(n / 10).push(digit_char(n % 10))
    }
}

/// The numeral of a number is a run of digits that denotes the number.
pub proof fn lemma_numeral(n: nat)
    ensures
        numeral(n).len() > 0,
        all_digits(numeral(n)),
        digits_value(numeral(n)) == n,
    decreases n,
{
    if n < 10 {
        let s = seq![digit_char(n)];
        assert(s.len() == 1);
        assert(s.last() == digit_char(n));
        assert(s.drop_last().len() == 0);
        assert(digits_value(s.drop_last()) == 0);
        assert(digit_value(digit_char(n)) == n);
        assert(digits_value(s) == digits_value(s.drop_last()) * 10 + digit_value(s.last()));
    } else {
        let front = numeral(n / 10);
        let last = digit_char(n % 10);
        lemma_numeral(n / 10);
        lemma_digits_value_push(front, last);
        assert(digit_value(last) == n % 10);
        assert forall|i: int| 0 <= i < front.push(last).len() implies spec_is_digit(
            #[trigger] front.push(last)[i],
        ) by {
            if i < front.len() {
                assert(front.push(last)[i] == front[i]);
            }
        }
    }
}

/// A run of one or more digits is read as the number that it denotes,
/// unless that number is above `u64::MAX`.
pub proof fn lemma_parse_of_digits(digits: Seq<char>)
    requires
        digits.len() > 0,
        all_digits(digits),
    ensures
        spec_parse(digits) == if digits_value(digits) > u64::MAX {
            Err::<u64, IntegerError>(IntegerError::Overflow)
        } else {
            Ok::<u64, IntegerError>(digits_value(digits) as u64)
        },
{
    assert(spec_is_digit(digits[0]));
    lemma_run_end_unique(digits, 0, CharClass::Digit, digits.len() as int);
    assert(digits.take(digits.len() as int) == digits);
}

/// The numeral of a number that fits in 64 bits is read as that number.
pub proof fn lemma_parse_of_numeral(n: u64)
    ensures
        spec_parse(numeral(n as nat)) == Ok::<u64, IntegerError>(n),
{
    lemma_numeral(n as nat);
    lemma_parse_of_digits(numeral(n as nat));
}

} // verus!

//! Decimal numbers written as text, and their products with a whole
//! multiplier, cut off to a whole number.
//!
//! All arithmetic is exact: a number is its digits and a power of ten,
//! never a binary approximation.
use crate::integer::{
    all_digits, digits_value, lemma_digits_value_bound, lemma_digits_value_concat,
    lemma_digits_value_grows, lemma_digits_value_step, lemma_pow10_adds, lemma_pow10_grows,
    lemma_pow10_positive, pow10,
};
use crate::text::{
    all_in, digit_of, digit_value, is_digit, join, lemma_run_end, lemma_run_end_within, reads_as,
    run_end, scan_run, slice, spec_ascii_lower, spec_is_digit, spec_reads_as, CharClass,
};
use vstd::arithmetic::div_mod::{
    lemma_basic_div, lemma_div_denominator, lemma_hoist_over_denominator,
};
use vstd::prelude::*;

verus! {

/// Why a text is not a decimal number.
#[derive(Clone, Copy, Debug, PartialEq, Eq)]
pub enum DecimalError {
    /// The text is empty.
    Empty,
    /// The text is not written as a number.
    Invalid,
}

/// What a number written as text denotes.
pub enum Number {
    /// The word `nan`: no number at all.
    NotANumber,
    /// The word `inf` or `infinity`, with its sign.
    Infinite { negative: bool },
    /// `mantissa` times ten to the power of `exponent`, with its sign.
    Finite { negative: bool, mantissa: nat, exponent: int },
}

/// The exponent that the text after an `e` denotes: a sign, which may be
/// absent, and one or more digits.
pub open spec fn exponent_of(s: Seq<char>) -> Option<int> {
    let signed = s.len() > 0 && (s[0] == '+' || s[0] == '-');
    let digits = if signed {
        s.skip(1)
    } else {
        s
    };
    if digits.len() > 0 && all_digits(digits) {
        if signed && s[0] == '-' {
            Some(-(digits_value(digits) as int))
        } else {
            Some(digits_value(digits) as int)
        }
    } else {
        None
    }
}

/// Where the mantissa of an unsigned text ends: behind its run of
/// digits and, if a full stop follows that run, behind the run of digits
/// after the full stop.
pub open spec fn mantissa_end(body: Seq<char>) -> int {
    run_end(body, fraction_start(body), CharClass::Digit)
}

/// Where the digits behind the point begin, if there are any.
pub open spec fn fraction_start(body: Seq<char>) -> int {
    let whole_end = run_end(body, 0, CharClass::Digit);
    if whole_end < body.len() && body[whole_end] == '.' {
        whole_end + 1
    } else {
        whole_end
    }
}

/// The digits of the mantissa, without the full stop.
pub open spec fn mantissa_digits(body: Seq<char>) -> Seq<char> {
    body.subrange(0, run_end(body, 0, CharClass::Digit)) + body.subrange(
        fraction_start(body),
        mantissa_end(body),
    )
}

/// How many digits the mantissa has behind the point.
pub open spec fn places_of(body: Seq<char>) -> nat {
    (mantissa_end(body) - fraction_start(body)) as nat
}

/// The exponent that is written behind the mantissa: 0 where the text
/// ends with the mantissa, otherwise what follows an `e` or `E`.
pub open spec fn written_of(body: Seq<char>) -> Option<int> {
    let end = mantissa_end(body);
    if end == body.len() {
        Some(0)
    } else if 0 <= end < body.len() && (body[end] == 'e' || body[end] == 'E') {
        exponent_of(body.skip(end + 1))
    } else {
        None
    }
}

/// The mantissa and the exponent that an unsigned text denotes.
///
/// The text is a run of digits, then optionally a full stop and another
/// run of digits, then optionally `e` or `E` and an exponent. One of the
/// two runs may be empty, not both. Each digit behind the point lowers
/// the exponent by one.
pub open spec fn finite_of(body: Seq<char>) -> Option<(nat, int)> {
    if mantissa_digits(body).len() == 0 {
        None
    } else {
        match written_of(body) {
            Some(e) => Some((digits_value(mantissa_digits(body)), e - places_of(body))),
            None => None,
        }
    }
}

/// What a text denotes as a number.
///
/// A sign may come first. What follows is a decimal number as
/// [`finite_of`] reads it, or one of the words `nan`, `inf` and
/// `infinity` in small or capital letters.
pub open spec fn number_of(s: Seq<char>) -> Result<Number, DecimalError> {
    if s.len() == 0 {
        Err(DecimalError::Empty)
    } else {
        let signed = s[0] == '+' || s[0] == '-';
        let negative = s[0] == '-';
        let body = if signed {
            s.skip(1)
        } else {
            s
        };
        if body.len() == 0 {
            Err(DecimalError::Invalid)
        } else {
            match finite_of(body) {
                Some((mantissa, exponent)) => Ok(Number::Finite { negative, mantissa, exponent }),
                None => if spec_reads_as(body, seq!['n', 'a', 'n']) {
                    Ok(Number::NotANumber)
                } else if spec_reads_as(body, seq!['i', 'n', 'f']) || spec_reads_as(
                    body,
                    seq!['i', 'n', 'f', 'i', 'n', 'i', 't', 'y'],
                ) {
                    Ok(Number::Infinite { negative })
                } else {
                    Err(DecimalError::Invalid)
                },
            }
        }
    }
}

/// `mantissa` times ten to the power of `exponent` times `multiplier`,
/// cut off to a whole number.
pub open spec fn truncated_product(mantissa: nat, exponent: int, multiplier: nat) -> nat {
    if exponent >= 0 {
        mantissa * pow10(exponent as nat) * multiplier
    } else {
        (mantissa * multiplier) / pow10((-exponent) as nat)
    }
}

/// `n` where it fits in 64 bits, `u64::MAX` where it does not.
pub open spec fn saturated(n: nat) -> u64 {
    if n > u64::MAX {
        u64::MAX
    } else {
        n as u64
    }
}

impl Number {
    /// The number times `multiplier`, cut off towards zero and brought
    /// into the range of `u64`: a number below zero gives 0, one that is
    /// too large gives `u64::MAX`, and what is not a number gives 0.
    pub open spec fn scaled(self, multiplier: nat) -> u64 {
        match self {
            Number::NotANumber => 0,
            Number::Infinite { negative } => if negative {
                0
            } else {
                u64::MAX
            },
            Number::Finite { negative, mantissa, exponent } => if negative {
                0
            } else {
                saturated(truncated_product(mantissa, exponent, multiplier))
            },
        }
    }
}

/// What a text gives when it is read as a number and multiplied by
/// `multiplier`.
pub open spec fn spec_scale(s: Seq<char>, multiplier: nat) -> Result<u64, DecimalError> {
    match number_of(s) {
        Ok(number) => Ok(number.scaled(multiplier)),
        Err(e) => Err(e),
    }
}

/// A product with a factor 0 is 0, whatever the exponent.
pub proof fn lemma_truncated_product_zero(mantissa: nat, exponent: int, multiplier: nat)
    requires
        mantissa == 0 || multiplier == 0,
    ensures
        truncated_product(mantissa, exponent, multiplier) == 0,
{
    if exponent >= 0 {
        let p = pow10(exponent as nat);
        assert(mantissa * p * multiplier == 0) by (nonlinear_arith)
            requires
                mantissa == 0 || multiplier == 0,
        ;
    } else {
        let p = pow10((-exponent) as nat);
        lemma_pow10_positive((-exponent) as nat);
        assert(mantissa * multiplier == 0) by (nonlinear_arith)
            requires
                mantissa == 0 || multiplier == 0,
        ;
        lemma_basic_div(0, p as int);
    }
}

/// Twenty decimal places are more than 64 bits hold.
pub proof fn lemma_pow10_20()
    ensures
        pow10(20) == 100_000_000_000_000_000_000nat,
        pow10(20) > u64::MAX,
{
    reveal_with_fuel(pow10, 21);
}

/// With an exponent of 20 or more, a product without a factor 0 is above
/// `u64::MAX`.
pub proof fn lemma_truncated_product_large(mantissa: nat, exponent: int, multiplier: nat)
    requires
        mantissa >= 1,
        multiplier >= 1,
        exponent >= 20,
    ensures
        truncated_product(mantissa, exponent, multiplier) > u64::MAX,
{
    lemma_pow10_20();
    lemma_pow10_grows(20, exponent as nat);
    let p = pow10(exponent as nat);
    assert(mantissa * p * multiplier >= p) by (nonlinear_arith)
        requires
            mantissa >= 1,
            multiplier >= 1,
            p >= 0,
    ;
}

/// A mantissa of `length` digits that is moved `length + 20` or more
/// places to the right leaves nothing before the point, whatever 64-bit
/// multiplier it is given.
pub proof fn lemma_truncated_product_small(
    mantissa: nat,
    length: nat,
    exponent: int,
    multiplier: nat,
)
    requires
        mantissa < pow10(length),
        multiplier <= u64::MAX,
        exponent <= -(length + 20),
    ensures
        truncated_product(mantissa, exponent, multiplier) == 0,
{
    let places = (-exponent) as nat;
    lemma_pow10_20();
    lemma_pow10_adds(length, 20);
    lemma_pow10_grows(length + 20, places);
    let bound = pow10(length);
    let wide = pow10(20);
    assert(mantissa * multiplier < bound * wide) by (nonlinear_arith)
        requires
            mantissa < bound,
            multiplier < wide,
    ;
    lemma_basic_div((mantissa * multiplier) as int, pow10(places) as int);
}

/// How many digits of a mantissa stay before the point when the point
/// is moved by `exponent`.
pub open spec fn split_at(digits: Seq<char>, exponent: int) -> int {
    if exponent >= 0 {
        digits.len() as int
    } else if -exponent <= digits.len() {
        digits.len() + exponent
    } else {
        0
    }
}

/// The whole number before the point: the digits that stay there, and a
/// zero for each place that a positive exponent adds.
pub open spec fn whole_part(digits: Seq<char>, exponent: int) -> nat {
    let pad = if exponent >= 0 {
        exponent as nat
    } else {
        0
    };
    digits_value(digits.take(split_at(digits, exponent))) * pow10(pad)
}

/// What the digits behind the point add to the product: their product
/// with the multiplier, divided by the power of ten of their places and
/// of the zeros that come between the point and the first of them.
pub open spec fn fraction_part(digits: Seq<char>, exponent: int, multiplier: nat) -> nat {
    let k = split_at(digits, exponent);
    let zeros = if -exponent > digits.len() {
        (-exponent - digits.len()) as nat
    } else {
        0
    };
    (digits_value(digits.skip(k)) * multiplier) / pow10((digits.len() - k) as nat) / pow10(zeros)
}

/// What the digits from index `from` on add to a product when they
/// stand directly behind the point.
pub open spec fn carry_from(digits: Seq<char>, from: int, multiplier: nat) -> nat {
    (digits_value(digits.skip(from)) * multiplier) / pow10((digits.len() - from) as nat)
}

/// The part of a product that lies before the point and the part that
/// lies behind it can be computed apart: the digits of the mantissa that
/// stay before the point are multiplied as a whole number, and only the
/// others are divided.
pub proof fn lemma_truncated_product_split(digits: Seq<char>, exponent: int, multiplier: nat)
    requires
        all_digits(digits),
    ensures
        truncated_product(digits_value(digits), exponent, multiplier) == whole_part(
            digits,
            exponent,
        ) * multiplier + fraction_part(digits, exponent, multiplier),
{
    let n = digits_value(digits);
    let len = digits.len() as int;
    let k = split_at(digits, exponent);
    let m = multiplier;
    assert(pow10(0) == 1);
    if exponent >= 0 {
        let p = pow10(exponent as nat);
        assert(k == len);
        assert(digits.take(len) == digits);
        assert(digits.skip(len).len() == 0);
        assert(digits_value(digits.skip(len)) == 0);
        assert(0 * m == 0);
        assert(0nat / 1 == 0);
        assert(fraction_part(digits, exponent, m) == 0);
        assert(whole_part(digits, exponent) == n * p);
    } else {
        let places = (-exponent) as nat;
        lemma_pow10_positive(places);
        if places <= len {
            let head = digits.take(k);
            let tail = digits.skip(k);
            assert(head + tail == digits);
            lemma_digits_value_concat(head, tail);
            let w = digits_value(head);
            let f = digits_value(tail);
            let d = pow10(places);
            assert(tail.len() == places);
            assert(n == w * d + f);
            assert(n * m == f * m + (w * m) * d) by (nonlinear_arith)
                requires
                    n == w * d + f,
            ;
            lemma_hoist_over_denominator((f * m) as int, (w * m) as int, d);
            assert((n * m) / d == (f * m) / d + w * m);
            assert(w * 1 == w);
            assert(whole_part(digits, exponent) == w);
            let q = (f * m) / d;
            assert(q / 1 == q) by (nonlinear_arith);
            assert(fraction_part(digits, exponent, m) == (f * m) / d);
        } else {
            assert(k == 0);
            assert(digits.take(0).len() == 0);
            assert(digits_value(digits.take(0)) == 0);
            assert(digits.skip(0) == digits);
            let zeros = (places - len) as nat;
            let a = pow10(len as nat);
            let b = pow10(zeros);
            lemma_pow10_positive(len as nat);
            lemma_pow10_positive(zeros);
            lemma_pow10_adds(len as nat, zeros);
            assert(pow10(places) == a * b);
            lemma_div_denominator((n * m) as int, a as int, b as int);
            assert(((n * m) / a) / b == (n * m) / (a * b));
            assert(0 * 1 == 0);
            assert(whole_part(digits, exponent) == 0);
            assert(0 * m == 0);
            assert(fraction_part(digits, exponent, m) == ((n * m) / a) / b);
        }
    }
}

/// One more digit in front: its product with the multiplier and what
/// the digits behind it carry, divided by ten.
pub proof fn lemma_carry_step(digits: Seq<char>, from: int, multiplier: nat)
    requires
        all_digits(digits),
        0 <= from < digits.len(),
    ensures
        carry_from(digits, from, multiplier) == (digit_value(digits[from])
            * multiplier + carry_from(digits, from + 1, multiplier)) / 10,
{
    let tail = digits.skip(from + 1);
    let one = seq![digits[from]];
    assert(one + tail == digits.skip(from));
    lemma_digits_value_concat(one, tail);
    assert(one.len() == 1);
    assert(one.drop_last().len() == 0);
    assert(one.last() == digits[from]);
    assert(digits_value(one.drop_last()) == 0);
    assert(digits_value(one) == digits_value(one.drop_last()) * 10 + digit_value(
        one.last(),
    ));
    assert(digits_value(one) == digit_value(digits[from]));
    let d = digit_value(digits[from]);
    let r = digits_value(tail);
    let t = pow10(tail.len());
    lemma_pow10_positive(tail.len());
    let x = (d * t + r) * multiplier;
    assert(x == r * multiplier + (d * multiplier) * t) by (nonlinear_arith)
        requires
            x == (d * t + r) * multiplier,
    ;
    lemma_hoist_over_denominator((r * multiplier) as int, (d * multiplier) as int, t);
    lemma_div_denominator(x as int, t as int, 10);
    assert(pow10((digits.len() - from) as nat) == t * 10);
}

/// A whole part above `u64::MAX` puts the product above it too.
pub proof fn lemma_product_beyond(whole: nat, multiplier: nat, carry: nat)
    requires
        whole > u64::MAX,
        multiplier >= 1,
    ensures
        saturated(whole * multiplier + carry) == u64::MAX,
{
    assert(whole * multiplier >= whole) by (nonlinear_arith)
        requires
            multiplier >= 1,
    ;
}

/// The magnitude beyond which an exponent is not told apart from the
/// limit itself: with so large an exponent every number is 0 or beyond
/// the range of `u64`.
pub const EXPONENT_LIMIT: i128 = 0x2_0000_0000_0000_0000;

/// `e`, brought into the range from `-EXPONENT_LIMIT` to
/// `EXPONENT_LIMIT`.
pub open spec fn limited(e: int) -> int {
    if e > EXPONENT_LIMIT {
        EXPONENT_LIMIT as int
    } else if e < -EXPONENT_LIMIT {
        -EXPONENT_LIMIT
    } else {
        e
    }
}

/// Reads the exponent that is written in `v` from index `from` on. An
/// exponent beyond `EXPONENT_LIMIT` is given as the limit.
fn read_exponent(v: &Vec<char>, from: usize) -> (r: Option<i128>)
    requires
        from <= v.len(),
    ensures
        r == match exponent_of(v@.skip(from as int)) {
            Some(e) => Some(limited(e) as i128),
            None => None,
        },
{
    let n = v.len();
    let signed = from < n && (v[from] == '+' || v[from] == '-');
    let negative = signed && v[from] == '-';
    let start: usize = if signed {
        from + 1
    } else {
        from
    };
    let digits = slice(v, start, n);
    let ghost s = v@.skip(from as int);
    assert(digits@ == if signed {
        s.skip(1)
    } else {
        s
    });
    if digits.len() == 0 {
        return None;
    }
    let mut magnitude: i128 = 0;
    let mut i: usize = 0;
    while i < digits.len()
        invariant
            i <= digits.len(),
            0 < digits.len(),
            s == v@.skip(from as int),
            signed == (s.len() > 0 && (s[0] == '+' || s[0] == '-')),
            negative == (signed && s[0] == '-'),
            digits@ == if signed {
                s.skip(1)
            } else {
                s
            },
            forall|j: int| 0 <= j < i ==> spec_is_digit(#[trigger] digits@[j]),
            0 <= magnitude <= EXPONENT_LIMIT,
            magnitude == limited(digits_value(digits@.take(i as int)) as int),
        decreases digits.len() - i,
    {
        let c = digits[i];
        if !is_digit(c) {
            return None;
        }
        let d = digit_of(c);
        proof {
            lemma_digits_value_step(digits@, i as int);
        }
        if magnitude < EXPONENT_LIMIT {
            magnitude = magnitude * 10 + d as i128;
            if magnitude > EXPONENT_LIMIT {
                magnitude = EXPONENT_LIMIT;
            }
        }
        i += 1;
    }
    assert(digits@.take(digits.len() as int) == digits@);
    if negative {
        Some(-magnitude)
    } else {
        Some(magnitude)
    }
}

/// Tells whether a run of digits denotes 0.
fn is_zero(digits: &Vec<char>) -> (r: bool)
    requires
        all_digits(digits@),
    ensures
        r == (digits_value(digits@) == 0),
{
    let mut i: usize = 0;
    while i < digits.len()
        invariant
            i <= digits.len(),
            all_digits(digits@),
            digits_value(digits@.take(i as int)) == 0,
        decreases digits.len() - i,
    {
        proof {
            lemma_digits_value_step(digits@, i as int);
            lemma_digits_value_grows(digits@, i + 1, digits.len() as int);
            assert(digits@.take(digits.len() as int) == digits@);
        }
        if digit_of(digits[i]) != 0 {
            return false;
        }
        i += 1;
    }
    assert(digits@.take(digits.len() as int) == digits@);
    true
}

/// The product of the number that `digits` and `exponent` denote with
/// `multiplier`, cut off to a whole number and kept within `u64`.
///
/// The digits before the point are multiplied as a whole number. Those
/// behind it are taken from the last to the first: each adds its product
/// with the multiplier to a tenth of what the digits behind it gave.
fn truncate_digits(digits: &Vec<char>, exponent: i128, multiplier: u64) -> (r: u64)
    requires
        all_digits(digits@),
        -(digits.len() + 20) < exponent < 20,
    ensures
        r == saturated(
            truncated_product(digits_value(digits@), exponent as int, multiplier as nat),
        ),
{
    let len = digits.len();
    let ghost m = multiplier as nat;
    proof {
        lemma_truncated_product_split(digits@, exponent as int, m);
    }
    if multiplier == 0 {
        proof {
            lemma_truncated_product_zero(digits_value(digits@), exponent as int, 0);
        }
        return 0;
    }
    let kept: usize = if exponent >= 0 {
        len
    } else if -exponent <= len as i128 {
        len - ((-exponent) as usize)
    } else {
        0
    };
    let pad: usize = if exponent >= 0 {
        exponent as usize
    } else {
        0
    };
    let zeros: usize = if -exponent > len as i128 {
        (-exponent - len as i128) as usize
    } else {
        0
    };
    assert(kept == split_at(digits@, exponent as int));
    let mut carry: u128 = 0;
    let mut j: usize = len;
    proof {
        assert(digits@.skip(len as int).len() == 0);
        assert(pow10(0) == 1);
        assert(0 * m == 0);
        assert(0nat / 1 == 0);
    }
    while j > kept
        invariant
            kept <= j <= len,
            len == digits.len(),
            all_digits(digits@),
            m == multiplier,
            carry == carry_from(digits@, j as int, m),
            carry <= multiplier,
        decreases j,
    {
        j -= 1;
        let d = digit_of(digits[j]);
        proof {
            lemma_carry_step(digits@, j as int, m);
            assert(d * multiplier <= 9 * multiplier) by (nonlinear_arith)
                requires
                    d <= 9,
            ;
        }
        carry = (d as u128 * multiplier as u128 + carry) / 10;
    }
    let mut z: usize = 0;
    proof {
        let c = carry_from(digits@, kept as int, m);
        assert(c / 1 == c) by (nonlinear_arith);
        assert(pow10(0) == 1);
    }
    while z < zeros
        invariant
            z <= zeros < 20,
            m == multiplier,
            carry == carry_from(digits@, kept as int, m) / pow10(z as nat),
            carry <= multiplier,
        decreases zeros - z,
    {
        proof {
            lemma_pow10_positive(z as nat);
            lemma_div_denominator(
                carry_from(digits@, kept as int, m) as int,
                pow10(z as nat) as int,
                10,
            );
            assert(pow10((z + 1) as nat) == pow10(z as nat) * 10);
        }
        carry = carry / 10;
        z += 1;
    }
    assert(carry == fraction_part(digits@, exponent as int, m));
    let mut whole: u64 = 0;
    let mut i: usize = 0;
    let ghost target = whole_part(digits@, exponent as int);
    let ghost goal = truncated_product(digits_value(digits@), exponent as int, m);
    proof {
        lemma_pow10_positive(pad as nat);
    }
    while i < kept
        invariant
            i <= kept <= len,
            len == digits.len(),
            all_digits(digits@),
            m == multiplier,
            m >= 1,
            whole == digits_value(digits@.take(i as int)),
            target == digits_value(digits@.take(kept as int)) * pow10(pad as nat),
            pow10(pad as nat) >= 1,
            goal == truncated_product(digits_value(digits@), exponent as int, m),
            goal == target * m + carry,
        decreases kept - i,
    {
        let d = digit_of(digits[i]);
        proof {
            lemma_digits_value_step(digits@, i as int);
        }
        if whole > (u64::MAX - d as u64) / 10 {
            proof {
                lemma_digits_value_grows(digits@, i + 1, kept as int);
                let base = digits_value(digits@.take(kept as int));
                let scale = pow10(pad as nat);
                assert(base * scale >= base) by (nonlinear_arith)
                    requires
                        scale >= 1,
                ;
                lemma_product_beyond(target, m, carry as nat);
            }
            return u64::MAX;
        }
        whole = whole * 10 + d as u64;
        i += 1;
    }
    let mut p: usize = 0;
    proof {
        assert(pow10(0) == 1);
        assert(whole * 1 == whole);
    }
    while p < pad
        invariant
            p <= pad < 20,
            m == multiplier,
            m >= 1,
            whole == digits_value(digits@.take(kept as int)) * pow10(p as nat),
            target == digits_value(digits@.take(kept as int)) * pow10(pad as nat),
            goal == truncated_product(digits_value(digits@), exponent as int, m),
            goal == target * m + carry,
        decreases pad - p,
    {
        let ghost base = digits_value(digits@.take(kept as int));
        proof {
            assert(pow10((p + 1) as nat) == pow10(p as nat) * 10);
            assert(base * (pow10(p as nat) * 10) == base * pow10(p as nat) * 10)
                by (nonlinear_arith);
        }
        if whole > u64::MAX / 10 {
            proof {
                lemma_pow10_grows((p + 1) as nat, pad as nat);
                let lo = pow10((p + 1) as nat);
                let hi = pow10(pad as nat);
                assert(base * lo <= base * hi) by (nonlinear_arith)
                    requires
                        lo <= hi,
                ;
                lemma_product_beyond(target, m, carry as nat);
            }
            return u64::MAX;
        }
        whole = whole * 10;
        p += 1;
    }
    assert(whole == target);
    assert(whole * multiplier <= 0xffff_ffff_ffff_ffff * 0xffff_ffff_ffff_ffff) by (nonlinear_arith)
        requires
            whole <= 0xffff_ffff_ffff_ffff,
            multiplier <= 0xffff_ffff_ffff_ffff,
    ;
    let total: u128 = whole as u128 * multiplier as u128 + carry;
    if total > u64::MAX as u128 {
        u64::MAX
    } else {
        total as u64
    }
}

/// A text that begins with a digit or a full stop is none of the words
/// `nan`, `inf` and `infinity`.
pub proof fn lemma_number_is_no_word(body: Seq<char>)
    requires
        body.len() > 0,
        spec_is_digit(body[0]) || body[0] == '.',
    ensures
        !spec_reads_as(body, seq!['n', 'a', 'n']),
        !spec_reads_as(body, seq!['i', 'n', 'f']),
        !spec_reads_as(body, seq!['i', 'n', 'f', 'i', 'n', 'i', 't', 'y']),
{
    let lowered = body.map_values(|c: char| spec_ascii_lower(c));
    assert(lowered[0] == body[0]);
    assert(seq!['n', 'a', 'n'][0] == 'n');
    assert(seq!['i', 'n', 'f'][0] == 'i');
    assert(seq!['i', 'n', 'f', 'i', 'n', 'i', 't', 'y'][0] == 'i');
}

/// The digits of the mantissa of `body`, the index at which the
/// mantissa ends, and the number of digits behind the point.
fn read_mantissa(body: &Vec<char>) -> (r: (Vec<char>, usize, usize))
    ensures
        r.0@ == mantissa_digits(body@),
        r.1 == mantissa_end(body@),
        r.2 == places_of(body@),
        r.1 <= body.len(),
        r.2 <= body.len(),
        all_digits(r.0@),
        r.0.len() > 0 ==> spec_is_digit(body@[0]) || body@[0] == '.',
{
    let whole_end = scan_run(body, 0, CharClass::Digit);
    let dotted = whole_end < body.len() && body[whole_end] == '.';
    let start: usize = if dotted {
        whole_end + 1
    } else {
        whole_end
    };
    let end = scan_run(body, start, CharClass::Digit);
    let whole = slice(body, 0, whole_end);
    let fraction = slice(body, start, end);
    let digits = join(&whole, &fraction);
    proof {
        lemma_run_end(body@, 0, CharClass::Digit);
        lemma_run_end(body@, start as int, CharClass::Digit);
        assert forall|i: int| 0 <= i < digits@.len() implies spec_is_digit(
            #[trigger] digits@[i],
        ) by {
            if i < whole_end {
                assert(digits@[i] == body@[i]);
            } else {
                assert(digits@[i] == body@[start + (i - whole_end)]);
            }
        }
    }
    (digits, end, end - start)
}

/// The exponent that is written in `body` behind the mantissa, which
/// ends at index `end`. An exponent beyond `EXPONENT_LIMIT` is given as
/// the limit.
fn read_written(body: &Vec<char>, end: usize) -> (r: Option<i128>)
    requires
        end == mantissa_end(body@),
        end <= body.len(),
    ensures
        r == match written_of(body@) {
            Some(e) => Some(limited(e) as i128),
            None => None,
        },
{
    if end == body.len() {
        Some(0)
    } else if body[end] == 'e' || body[end] == 'E' {
        read_exponent(body, end + 1)
    } else {
        None
    }
}

/// What one of the words `nan`, `inf` and `infinity` gives, with
/// capitals allowed: 0 for `nan`, the end of the range on the side of
/// the sign for the others. No result for any other text.
fn read_word(body: &Vec<char>, negative: bool) -> (r: Option<u64>)
    ensures
        r == if spec_reads_as(body@, seq!['n', 'a', 'n']) {
            Some(0u64)
        } else if spec_reads_as(body@, seq!['i', 'n', 'f']) || spec_reads_as(
            body@,
            seq!['i', 'n', 'f', 'i', 'n', 'i', 't', 'y'],
        ) {
            Some(
                if negative {
                    0u64
                } else {
                    u64::MAX
                },
            )
        } else {
            None
        },
{
    let nan: Vec<char> = vec!['n', 'a', 'n'];
    let inf: Vec<char> = vec!['i', 'n', 'f'];
    let infinity: Vec<char> = vec!['i', 'n', 'f', 'i', 'n', 'i', 't', 'y'];
    assert(nan@ == seq!['n', 'a', 'n']);
    assert(inf@ == seq!['i', 'n', 'f']);
    assert(infinity@ == seq!['i', 'n', 'f', 'i', 'n', 'i', 't', 'y']);
    if reads_as(body, &nan) {
        Some(0)
    } else if reads_as(body, &inf) || reads_as(body, &infinity) {
        if negative {
            Some(0)
        } else {
            Some(u64::MAX)
        }
    } else {
        None
    }
}

/// The product of a mantissa with its power of ten and `multiplier`,
/// where the exponent is the written one less the places behind the
/// point. `written` may stand for any exponent that [`limited`] brings
/// to it: the product is the same for all of them.
fn scale_finite(digits: &Vec<char>, written: i128, places: usize, multiplier: u64) -> (r: u64)
    requires
        all_digits(digits@),
        -EXPONENT_LIMIT <= written <= EXPONENT_LIMIT,
    ensures
        forall|e: int| #[trigger]
            limited(e) == written ==> r == saturated(
                truncated_product(digits_value(digits@), e - places, multiplier as nat),
            ),
{
    let ghost mantissa = digits_value(digits@);
    let ghost m = multiplier as nat;
    if multiplier == 0 {
        proof {
            assert forall|e: int| #[trigger] limited(e) == written implies 0 == saturated(
                truncated_product(mantissa, e - places, m),
            ) by {
                lemma_truncated_product_zero(mantissa, e - places, m);
            }
        }
        return 0;
    }
    let exponent: i128 = written - places as i128;
    if exponent >= 20 {
        if is_zero(digits) {
            proof {
                assert forall|e: int| #[trigger] limited(e) == written implies 0 == saturated(
                    truncated_product(mantissa, e - places, m),
                ) by {
                    lemma_truncated_product_zero(mantissa, e - places, m);
                }
            }
            0
        } else {
            proof {
                assert forall|e: int| #[trigger] limited(e) == written implies u64::MAX
                    == saturated(truncated_product(mantissa, e - places, m)) by {
                    lemma_truncated_product_large(mantissa, e - places, m);
                }
            }
            u64::MAX
        }
    } else if exponent <= -(digits.len() as i128 + 20) {
        proof {
            lemma_digits_value_bound(digits@);
            assert forall|e: int| #[trigger] limited(e) == written implies 0 == saturated(
                truncated_product(mantissa, e - places, m),
            ) by {
                lemma_truncated_product_small(mantissa, digits@.len(), e - places, m);
            }
        }
        0
    } else {
        truncate_digits(digits, exponent, multiplier)
    }
}

/// Reads `text` as a number and multiplies it by `multiplier`. The
/// product is cut off towards zero and kept within `u64`.
pub fn scale(text: &Vec<char>, multiplier: u64) -> (r: Result<u64, DecimalError>)
    ensures
        r == spec_scale(text@, multiplier as nat),
{
    if text.len() == 0 {
        return Err(DecimalError::Empty);
    }
    let signed = text[0] == '+' || text[0] == '-';
    let negative = text[0] == '-';
    let from: usize = if signed {
        1
    } else {
        0
    };
    let body = slice(text, from, text.len());
    assert(body@ == if signed {
        text@.skip(1)
    } else {
        text@
    });
    if body.len() == 0 {
        return Err(DecimalError::Invalid);
    }
    let (digits, end, places) = read_mantissa(&body);
    if digits.len() == 0 {
        return match read_word(&body, negative) {
            Some(value) => Ok(value),
            None => Err(DecimalError::Invalid),
        };
    }
    proof {
        lemma_number_is_no_word(body@);
    }
    match read_written(&body, end) {
        None => Err(DecimalError::Invalid),
        Some(written) => {
            let value = scale_finite(&digits, written, places, multiplier);
            assert(limited(written_of(body@).unwrap()) == written);
            if negative {
                Ok(0)
            } else {
                Ok(value)
            }
        },
    }
}

/// A decimal number as it is commonly written: the digits before the
/// point, and, if there are digits behind the point, a full stop and
/// those digits.
pub open spec fn decimal_text(whole: Seq<char>, fraction: Seq<char>) -> Seq<char> {
    if fraction.len() == 0 {
        whole
    } else {
        whole + seq!['.'] + fraction
    }
}

/// A commonly written decimal number denotes its digits, taken as one
/// whole number, divided by ten for each digit behind the point.
pub proof fn lemma_number_of_decimal(whole: Seq<char>, fraction: Seq<char>)
    requires
        all_digits(whole),
        all_digits(fraction),
        whole.len() + fraction.len() > 0,
    ensures
        number_of(decimal_text(whole, fraction)) == Ok::<Number, DecimalError>(
            Number::Finite {
                negative: false,
                mantissa: digits_value(whole + fraction),
                exponent: -(fraction.len() as int),
            },
        ),
{
    let text = decimal_text(whole, fraction);
    let none = Seq::<char>::empty();
    assert(all_in(whole, CharClass::Digit));
    assert(all_in(fraction, CharClass::Digit));
    assert(all_in(none, CharClass::Digit));
    if fraction.len() == 0 {
        assert(text == none + whole + none);
        lemma_run_end_within(none, whole, none, CharClass::Digit);
        assert(run_end(text, 0, CharClass::Digit) == whole.len());
        assert(fraction_start(text) == whole.len());
        assert(text == whole + none + none);
        lemma_run_end_within(whole, none, none, CharClass::Digit);
        assert(mantissa_end(text) == whole.len());
        assert(text.subrange(0, whole.len() as int) == whole);
        assert(text.subrange(whole.len() as int, whole.len() as int) == fraction);
    } else {
        let tail = seq!['.'] + fraction;
        assert(text == none + whole + tail);
        assert(tail[0] == '.');
        lemma_run_end_within(none, whole, tail, CharClass::Digit);
        assert(run_end(text, 0, CharClass::Digit) == whole.len());
        assert(text[whole.len() as int] == '.');
        assert(fraction_start(text) == whole.len() + 1);
        let head = whole + seq!['.'];
        assert(text == head + fraction + none);
        lemma_run_end_within(head, fraction, none, CharClass::Digit);
        assert(mantissa_end(text) == text.len());
        assert(text.subrange(0, whole.len() as int) == whole);
        assert(text.subrange(whole.len() as int + 1, text.len() as int) == fraction);
    }
    assert(mantissa_digits(text) == whole + fraction);
    assert(places_of(text) == fraction.len());
    assert(written_of(text) == Some(0int));
    assert(text.len() > 0);
    if whole.len() > 0 {
        assert(text[0] == whole[0]);
    } else {
        assert(text[0] == '.');
    }
    assert(text[0] != '+' && text[0] != '-');
}

/// A commonly written decimal number, multiplied: the digits, taken as
/// one whole number, times the multiplier, divided by ten for each digit
/// behind the point and cut off to a whole number that is kept within
/// `u64`.
pub proof fn lemma_scale_of_decimal(whole: Seq<char>, fraction: Seq<char>, multiplier: nat)
    requires
        all_digits(whole),
        all_digits(fraction),
        whole.len() + fraction.len() > 0,
    ensures
        spec_scale(decimal_text(whole, fraction), multiplier) == Ok::<u64, DecimalError>(
            saturated((digits_value(whole + fraction) * multiplier) / pow10(fraction.len())),
        ),
{
    lemma_number_of_decimal(whole, fraction);
    let n = digits_value(whole + fraction);
    if fraction.len() == 0 {
        assert(pow10(0) == 1);
        assert(n * 1 * multiplier == n * multiplier);
        let product = n * multiplier;
        assert(product / 1 == product) by (nonlinear_arith);
    }
}

} // verus!

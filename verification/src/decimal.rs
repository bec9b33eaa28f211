//! Decimal numbers such as `3.5`, `.5` or `7.` scaled to whole units.
//!
//! A decimal is read from a run of digits and dots; it is valid when it has
//! at most one dot. Its value is `mantissa / 10^scale`, where the mantissa
//! is the integer its digits form and the scale is the number of digits
//! after the dot. Scaling by `c` rounds down to a whole number and keeps
//! the digits that the rounding drops.
use vstd::prelude::*;

use crate::text::{digit_value, is_digit_char};

verus! {

/// A character that may belong to a decimal number.
pub open spec fn is_numeric_char(c: char) -> bool {
    is_digit_char(c) || c == '.'
}

/// Length of the longest prefix of `s` made of digits and dots.
pub open spec fn numeric_len(s: Seq<char>) -> nat
    decreases s.len(),
{
    if s.len() > 0 && is_numeric_char(s[0]) {
        1 + numeric_len(s.drop_first())
    } else {
        0
    }
}

/// Number of `.` in `s`.
pub open spec fn dot_count(s: Seq<char>) -> nat
    decreases s.len(),
{
    if s.len() == 0 {
        0
    } else {
        dot_count(s.drop_last()) + if s.last() == '.' {
            1nat
        } else {
            0nat
        }
    }
}

/// The value of the digits of `s`, read as one integer (the dot is skipped).
pub open spec fn decimal_mantissa(s: Seq<char>) -> nat
    decreases s.len(),
{
    if s.len() == 0 {
        0
    } else if s.last() == '.' {
        decimal_mantissa(s.drop_last())
    } else {
        decimal_mantissa(s.drop_last()) * 10 + digit_value(s.last())
    }
}

/// Number of digits after the dot of `s` (zero when there is no dot).
pub open spec fn decimal_scale(s: Seq<char>) -> nat
    decreases s.len(),
{
    if s.len() == 0 {
        0
    } else if s.last() == '.' {
        0
    } else if dot_count(s.drop_last()) > 0 {
        decimal_scale(s.drop_last()) + 1
    } else {
        0
    }
}

/// `10^n`.
pub open spec fn pow10(n: nat) -> nat
    decreases n,
{
    if n == 0 {
        1
    } else {
        10 * pow10((n - 1) as nat)
    }
}


pub proof fn lemma_div_shift(a: nat, b: nat, q: nat)
    requires
        q > 0,
    ensures
        (a * q + b) / q == a + b / q,
{
    let r = b % q;
    let d = b / q;
    vstd::arithmetic::div_mod::lemma_fundamental_div_mod(b as int, q as int);
    assert(a * q + b == (a + d) * q + r) by (nonlinear_arith)
        requires
            b == q * d + r,
    ;
    vstd::arithmetic::div_mod::lemma_fundamental_div_mod_converse_div(
        (a * q + b) as int,
        q as int,
        (a + d) as int,
        r as int,
    );
}

pub proof fn lemma_pow10_positive(n: nat)
    ensures
        pow10(n) >= 1,
    decreases n,
{
    if n > 0 {
        lemma_pow10_positive((n - 1) as nat);
    }
}

/// A digit-only sequence: the value of a leading digit followed by `s`.
pub proof fn lemma_mantissa_prepend(d: char, s: Seq<char>)
    requires
        is_digit_char(d),
        forall|k: int| 0 <= k < s.len() ==> is_digit_char(#[trigger] s[k]),
    ensures
        decimal_mantissa(seq![d] + s) == digit_value(d) * pow10(s.len()) + decimal_mantissa(s),
    decreases s.len(),
{
    if s.len() == 0 {
        assert((seq![d] + s).drop_last() =~= seq![]);
        assert((seq![d] + s).last() == d);
        assert(decimal_mantissa(seq![]) == 0);
        assert(d != '.');
        assert(decimal_mantissa(seq![d] + s) == digit_value(d));
        assert(decimal_mantissa(s) == 0);
        assert(pow10(s.len()) == 1);
    } else {
        let s2 = s.drop_last();
        assert((seq![d] + s).drop_last() =~= seq![d] + s2);
        assert((seq![d] + s).last() == s.last());
        assert(is_digit_char(s.last()));
        assert(s.last() != '.');
        assert(pow10(s.len()) == 10 * pow10(s2.len()));
        lemma_mantissa_prepend(d, s2);
        assert(decimal_mantissa(seq![d] + s) == decimal_mantissa(seq![d] + s2) * 10 + digit_value(s.last()));
        assert(decimal_mantissa(s) == decimal_mantissa(s2) * 10 + digit_value(s.last()));
        let p = pow10(s2.len());
        let m = decimal_mantissa(s2);
        let x = digit_value(d);
        assert((x * p + m) * 10 + digit_value(s.last()) == x * (10 * p) + (m * 10 + digit_value(
            s.last(),
        ))) by (nonlinear_arith);
    }
}

/// A number with a dot: `x.y` reads as `x * 10^|y| + y` with scale `|y|`.
pub proof fn lemma_mantissa_with_dot(x: Seq<char>, y: Seq<char>)
    requires
        forall|k: int| 0 <= k < x.len() ==> is_digit_char(#[trigger] x[k]),
        forall|k: int| 0 <= k < y.len() ==> is_digit_char(#[trigger] y[k]),
    ensures
        decimal_mantissa(x + seq!['.'] + y) == decimal_mantissa(x) * pow10(y.len())
            + decimal_mantissa(y),
        decimal_scale(x + seq!['.'] + y) == y.len(),
        dot_count(x + seq!['.'] + y) == 1,
    decreases y.len(),
{
    lemma_no_dots(x);
    let s = x + seq!['.'] + y;
    if y.len() == 0 {
        assert(s.drop_last() =~= x);
        assert(s.last() == '.');
        assert(decimal_mantissa(y) == 0);
        assert(pow10(y.len()) == 1);
        assert(decimal_mantissa(s) == decimal_mantissa(x));
        let a = decimal_mantissa(x);
        let p = pow10(y.len());
        assert(a * p == a) by (nonlinear_arith)
            requires
                p == 1,
        ;
    } else {
        let y2 = y.drop_last();
        assert(s.drop_last() =~= x + seq!['.'] + y2);
        assert(s.last() == y.last());
        assert(is_digit_char(y.last()));
        assert(y.last() != '.');
        lemma_mantissa_with_dot(x, y2);
        assert(pow10(y.len()) == 10 * pow10(y2.len()));
        assert(decimal_mantissa(s) == decimal_mantissa(x + seq!['.'] + y2) * 10 + digit_value(y.last()));
        assert(decimal_mantissa(y) == decimal_mantissa(y2) * 10 + digit_value(y.last()));
        let p = pow10(y2.len());
        let a = decimal_mantissa(x);
        let b = decimal_mantissa(y2);
        let c = digit_value(y.last());
        assert((a * p + b) * 10 + c == a * (10 * p) + (b * 10 + c)) by (nonlinear_arith);
        assert(decimal_mantissa(s) == a * pow10(y.len()) + decimal_mantissa(y));
    }
}

pub proof fn lemma_no_dots(x: Seq<char>)
    requires
        forall|k: int| 0 <= k < x.len() ==> is_digit_char(#[trigger] x[k]),
    ensures
        dot_count(x) == 0,
        decimal_scale(x) == 0,
    decreases x.len(),
{
    if x.len() > 0 {
        lemma_no_dots(x.drop_last());
    }
}


pub fn is_numeric(c: char) -> (b: bool)
    ensures
        b == is_numeric_char(c),
{
    ('0' <= c && c <= '9') || c == '.'
}

pub fn numeric_prefix_len(t: &Vec<char>) -> (n: usize)
    ensures
        n == numeric_len(t@),
        n <= t.len(),
        forall|k: int| 0 <= k < n ==> is_numeric_char(#[trigger] t@[k]),
{
    let len = t.len();
    let mut i: usize = 0;
    assert(t@.subrange(0, len as int) =~= t@);
    while i < len && is_numeric(t[i])
        invariant
            i <= len == t.len(),
            numeric_len(t@) == i + numeric_len(t@.subrange(i as int, len as int)),
            forall|k: int| 0 <= k < i ==> is_numeric_char(#[trigger] t@[k]),
        decreases len - i,
    {
        assert(t@.subrange(i as int, len as int).drop_first() =~= t@.subrange(i + 1, len as int));
        i = i + 1;
    }
    i
}

pub fn digit_of(c: char) -> (d: u128)
    requires
        is_digit_char(c),
    ensures
        d == digit_value(c),
        d <= 9,
{
    ((c as u32) - ('0' as u32)) as u128
}

/// The integer value of the digits `t[start..end]`, or `None` when it
/// exceeds [`SCALED_LIMIT`].
pub fn integer_value(t: &Vec<char>, start: usize, end: usize) -> (r: Option<u128>)
    requires
        start <= end <= t.len(),
        forall|k: int| start <= k < end ==> is_digit_char(#[trigger] t@[k]),
    ensures
        match r {
            Some(v) => v == decimal_mantissa(t@.subrange(start as int, end as int)) && v
                <= SCALED_LIMIT,
            None => decimal_mantissa(t@.subrange(start as int, end as int)) > SCALED_LIMIT,
        },
{
    let mut value: u128 = 0;
    let mut big = false;
    let mut i = start;
    while i < end
        invariant
            start <= i <= end <= t.len(),
            forall|k: int| start <= k < end ==> is_digit_char(#[trigger] t@[k]),
            !big ==> value == decimal_mantissa(t@.subrange(start as int, i as int)) && value
                <= SCALED_LIMIT,
            big ==> decimal_mantissa(t@.subrange(start as int, i as int)) > SCALED_LIMIT,
        decreases end - i,
    {
        let d = digit_of(t[i]);
        assert(t@.subrange(start as int, i + 1).drop_last() =~= t@.subrange(
            start as int,
            i as int,
        ));
        assert(t@.subrange(start as int, i + 1).last() == t@[i as int]);
        if !big {
            let next = value * 10 + d;
            if next > SCALED_LIMIT {
                big = true;
            } else {
                value = next;
            }
        }
        i = i + 1;
    }
    if big {
        None
    } else {
        Some(value)
    }
}

/// The value of decimal digits stored least significant first.
pub open spec fn le_digits_value(d: Seq<u8>) -> nat
    decreases d.len(),
{
    if d.len() == 0 {
        0
    } else {
        le_digits_value(d.drop_last()) + (d.last() as nat) * pow10((d.len() - 1) as nat)
    }
}

/// Every entry is a decimal digit.
pub open spec fn small_digits(d: Seq<u8>) -> bool {
    forall|k: int| 0 <= k < d.len() ==> #[trigger] d[k] < 10
}

/// Digits stored least significant first are worth less than `10^len`.
pub proof fn lemma_le_digits_bound(d: Seq<u8>)
    requires
        small_digits(d),
    ensures
        le_digits_value(d) < pow10(d.len()),
    decreases d.len(),
{
    if d.len() > 0 {
        let e = d.drop_last();
        assert(small_digits(e)) by {
            assert forall|k: int| 0 <= k < e.len() implies #[trigger] e[k] < 10 by {
                assert(e[k] == d[k]);
            }
        }
        lemma_le_digits_bound(e);
        let p = pow10(e.len());
        let v = le_digits_value(e);
        let l = d.last() as nat;
        assert(l < 10);
        assert(v + l * p < 10 * p) by (nonlinear_arith)
            requires
                v < p,
                l <= 9,
        ;
    }
}

/// `value(t[start..end]) * c` split at `10^(end - start)`: the quotient, and
/// the remainder as digits stored least significant first.
pub fn fraction_digits(t: &Vec<char>, start: usize, end: usize, c: u128) -> (r: (u128, Vec<u8>))
    requires
        start <= end <= t.len(),
        forall|k: int| start <= k < end ==> is_digit_char(#[trigger] t@[k]),
        1 <= c <= 86_400_000_000_000,
    ensures
        decimal_mantissa(t@.subrange(start as int, end as int)) * (c as nat) == r.0 * pow10(
            (end - start) as nat,
        ) + le_digits_value(r.1@),
        r.1@.len() == end - start,
        small_digits(r.1@),
        r.0 < c,
{
    let mut acc: u128 = 0;
    let mut digits: Vec<u8> = Vec::new();
    let mut j = end;
    assert(t@.subrange(end as int, end as int) =~= seq![]);
    while j > start
        invariant
            start <= j <= end <= t.len(),
            forall|k: int| start <= k < end ==> is_digit_char(#[trigger] t@[k]),
            1 <= c <= 86_400_000_000_000,
            acc < c,
            digits@.len() == end - j,
            small_digits(digits@),
            decimal_mantissa(t@.subrange(j as int, end as int)) * (c as nat) == acc * pow10(
                (end - j) as nat,
            ) + le_digits_value(digits@),
        decreases j,
    {
        let d = digit_of(t[j - 1]);
        let ghost suffix = t@.subrange(j as int, end as int);
        let ghost m = (end - j) as nat;
        let ghost old_digits = digits@;
        let ghost old_acc = acc;
        proof {
            assert(t@.subrange(j - 1, end as int) =~= seq![t@[j - 1]] + suffix);
            assert forall|k: int| 0 <= k < suffix.len() implies is_digit_char(
                #[trigger] suffix[k],
            ) by {
                assert(suffix[k] == t@[j + k]);
            }
            lemma_mantissa_prepend(t@[j - 1], suffix);
            assert(c * d <= 9 * c) by (nonlinear_arith)
                requires
                    d <= 9,
            ;
        }
        let sum = c * d + acc;
        let e = (sum % 10) as u8;
        acc = sum / 10;
        digits.push(e);
        proof {
            let cn = c as nat;
            let x = d as nat;
            let p = pow10(m);
            let s = decimal_mantissa(suffix);
            assert(digits@.drop_last() =~= old_digits);
            assert(le_digits_value(digits@) == le_digits_value(old_digits) + (e as nat) * p);
            assert(sum == 10 * acc + e);
            assert(pow10(m + 1) == 10 * p);
            assert((x * p + s) * cn == (10 * (acc as nat) + (e as nat)) * p + le_digits_value(
                old_digits,
            )) by (nonlinear_arith)
                requires
                    s * cn == (old_acc as nat) * p + le_digits_value(old_digits),
                    sum == cn * x + old_acc,
                    sum == 10 * acc + e,
            ;
            assert((10 * (acc as nat) + (e as nat)) * p == (acc as nat) * (10 * p) + (e as nat)
                * p) by (nonlinear_arith);
            assert forall|k: int| 0 <= k < digits@.len() implies #[trigger] digits@[k] < 10 by {
                if k < old_digits.len() {
                    assert(digits@[k] == old_digits[k]);
                }
            }
        }
        j = j - 1;
    }
    (acc, digits)
}

/// Two dots at different places of `s` make `dot_count(s) > 1`.
pub proof fn lemma_two_dots(s: Seq<char>, a: int, b: int)
    requires
        0 <= a < b < s.len(),
        s[a] == '.',
        s[b] == '.',
    ensures
        dot_count(s) > 1,
    decreases s.len(),
{
    if b < s.len() - 1 {
        lemma_two_dots(s.drop_last(), a, b);
    } else {
        lemma_one_dot(s.drop_last(), a);
    }
}

pub proof fn lemma_one_dot(s: Seq<char>, a: int)
    requires
        0 <= a < s.len(),
        s[a] == '.',
    ensures
        dot_count(s) > 0,
    decreases s.len(),
{
    if a < s.len() - 1 {
        lemma_one_dot(s.drop_last(), a);
    }
}


/// The largest scaled value [`read_decimal`] gives (`u64::MAX * 10^9`).
pub const SCALED_LIMIT: u128 = 18_446_744_073_709_551_615_000_000_000;

/// The value of the decimal `num` times `c`, rounded down.
pub open spec fn scaled_value(num: Seq<char>, c: nat) -> nat {
    (decimal_mantissa(num) * c) / pow10(decimal_scale(num))
}

/// What the decimal `t[0..n]` reads as.
pub struct DecimalRead {
    /// It has at most one dot.
    pub valid: bool,
    /// Some digit of it is not zero.
    pub nonzero: bool,
    /// When valid: its value times the scale, rounded down, or `None` when
    /// that exceeds [`SCALED_LIMIT`].
    pub scaled: Option<u128>,
    /// When valid: what the rounding down drops, `mantissa * c` modulo
    /// `10^scale`, as digits stored least significant first.
    pub remainder: Vec<u8>,
}

/// `(x * p + y) * c` split at `p`, given how `y * c` splits.
proof fn lemma_split_scaled(xm: nat, ym: nat, p: nat, cn: nat, frac: nat, v: nat)
    requires
        p >= 1,
        ym * cn == frac * p + v,
        v < p,
    ensures
        ((xm * p + ym) * cn) / p == xm * cn + frac,
        ((xm * p + ym) * cn) % p == v,
        (ym * cn) / p == frac,
{
    vstd::arithmetic::div_mod::lemma_fundamental_div_mod_converse(
        (ym * cn) as int,
        p as int,
        frac as int,
        v as int,
    );
    assert((xm * p + ym) * cn == (xm * cn + frac) * p + v) by (nonlinear_arith)
        requires
            ym * cn == frac * p + v,
    ;
    vstd::arithmetic::div_mod::lemma_fundamental_div_mod_converse(
        ((xm * p + ym) * cn) as int,
        p as int,
        (xm * cn + frac) as int,
        v as int,
    );
}

/// Reads the decimal `t[0..n]` (digits and dots only) and scales it by `c`.
pub fn read_decimal(t: &Vec<char>, n: usize, c: u128) -> (r: DecimalRead)
    requires
        n <= t.len(),
        forall|k: int| 0 <= k < n ==> is_numeric_char(#[trigger] t@[k]),
        1 <= c <= 86_400_000_000_000,
    ensures
        r.valid == (dot_count(t@.subrange(0, n as int)) <= 1),
        r.nonzero == (decimal_mantissa(t@.subrange(0, n as int)) > 0),
        r.valid ==> match r.scaled {
            Some(v) => v == scaled_value(t@.subrange(0, n as int), c as nat) && v <= SCALED_LIMIT,
            None => scaled_value(t@.subrange(0, n as int), c as nat) > SCALED_LIMIT,
        },
        r.valid ==> r.remainder@.len() == decimal_scale(t@.subrange(0, n as int)),
        r.valid ==> small_digits(r.remainder@),
        r.valid ==> le_digits_value(r.remainder@) == (decimal_mantissa(t@.subrange(0, n as int))
            * (c as nat)) % pow10(decimal_scale(t@.subrange(0, n as int))),
{
    let len = t.len();
    // Scan the number: count its dots, find the first one, see whether a digit is non-zero.

    let mut dots: usize = 0;
    let mut dot_pos: usize = n;
    let mut nonzero = false;
    let mut i: usize = 0;
    while i < n
        invariant
            i <= n <= len == t.len(),
            forall|k: int| 0 <= k < n ==> is_numeric_char(#[trigger] t@[k]),
            dots == dot_count(t@.subrange(0, i as int)),
            dots <= i,
            nonzero == (decimal_mantissa(t@.subrange(0, i as int)) > 0),
            dots == 0 ==> dot_pos == n && forall|k: int| 0 <= k < i ==> t@[k] != '.',
            dots > 0 ==> dot_pos < i && t@[dot_pos as int] == '.' && forall|k: int|
                0 <= k < dot_pos ==> t@[k] != '.',
        decreases n - i,
    {
        assert(t@.subrange(0, i + 1).drop_last() =~= t@.subrange(0, i as int));
        assert(t@.subrange(0, i + 1).last() == t@[i as int]);
        if t[i] == '.' {
            if dots == 0 {
                dot_pos = i;
            }
            dots = dots + 1;
        } else if t[i] != '0' {
            nonzero = true;
        }
        i = i + 1;
    }
    assert(t@.subrange(0, n as int) =~= t@.subrange(0, i as int));
    assert(t@.subrange(0, n as int) =~= t@.subrange(0, i as int));
    if dots > 1 {
        return DecimalRead { valid: false, nonzero, scaled: None, remainder: Vec::new() };
    }
    let ghost numeric = t@.subrange(0, n as int);
    let int_end = if dots == 0 {
        n
    } else {
        dot_pos
    };
    assert forall|k: int| 0 <= k < int_end implies is_digit_char(#[trigger] t@[k]) by {
        assert(is_numeric_char(t@[k]));
    }
    let int_part = integer_value(&t, 0, int_end);
    let (frac, remainder) = if dots != 1 {
        (0, Vec::new())
    } else {
        assert forall|k: int| dot_pos + 1 <= k < n implies is_digit_char(#[trigger] t@[k]) by {
            assert(is_numeric_char(t@[k]));
            if t@[k] == '.' {
                // A second dot would make two dots in the number.
                lemma_two_dots(numeric, dot_pos as int, k);
            }
        }
        fraction_digits(&t, dot_pos + 1, n, c)
    };
    let ghost x = t@.subrange(0, int_end as int);
    let ghost y = if dots != 1 {
        seq![]
    } else {
        t@.subrange(dot_pos + 1, n as int)
    };
    proof {
        if dots == 0 {
            assert(x =~= numeric);
            lemma_no_dots(x);
            assert(pow10(0) == 1);
        } else {
            assert(numeric =~= x + seq!['.'] + y);
            lemma_mantissa_with_dot(x, y);
        }
        lemma_pow10_positive(y.len());
        let p = pow10(y.len());
        let cn = c as nat;
        let xm = decimal_mantissa(x);
        let ym = decimal_mantissa(y);
        if dots == 0 {
            assert(y.len() == 0);
            assert(ym == 0);
            assert(p == 1);
            assert(remainder@ =~= Seq::<u8>::empty());
            assert(le_digits_value(remainder@) == 0);
            assert(xm * p + ym == xm) by (nonlinear_arith)
                requires
                    p == 1,
                    ym == 0,
            ;
        }
        assert(decimal_scale(numeric) == y.len());
        assert(decimal_mantissa(numeric) == xm * p + ym);
        let v = le_digits_value(remainder@);
        assert(small_digits(remainder@)) by {
            if dots == 0 {
                assert(remainder@ =~= Seq::<u8>::empty());
            }
        }
        assert(remainder@.len() == y.len());
        assert(ym * cn == (frac as nat) * p + v);
        lemma_le_digits_bound(remainder@);
        lemma_split_scaled(xm, ym, p, cn, frac as nat, v);
    }
    let scaled: Option<u128> = match int_part {
        None => {
            proof {
                let xm = decimal_mantissa(x);
                assert(xm * c >= xm) by (nonlinear_arith)
                    requires
                        c >= 1,
                ;
            }
            None
        },
        Some(v) => {
            if v > SCALED_LIMIT / c {
                proof {
                    assert(v * c > SCALED_LIMIT) by (nonlinear_arith)
                        requires
                            v > SCALED_LIMIT / c,
                            c >= 1,
                    ;
                }
                None
            } else {
                proof {
                    assert(v * c <= SCALED_LIMIT) by (nonlinear_arith)
                        requires
                            v <= SCALED_LIMIT / c,
                            c >= 1,
                    ;
                }
                let whole = v * c + frac;
                if whole > SCALED_LIMIT {
                    None
                } else {
                    Some(whole)
                }
            }
        },
    };
    DecimalRead { valid: true, nonzero, scaled, remainder }
}

} // verus!

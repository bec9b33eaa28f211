//! Monitoring durations such as `15`, `7m`, `4m 20s` or `1d 4h 20m`.
//!
//! A duration is given as one or more parts. Each part is a decimal number
//! (`3.5`, `.5`, `7.`) followed by an optional unit `s`, `m`, `h` or `d`.
//! A unitless part counts seconds and must stand alone; a unit may be used
//! only once. The parts are added exactly, as decimals, and the total is
//! rounded to the nearest nanosecond, halves to even.
//!
//! Reading the numbers as decimals, not as binary floating point, leaves out
//! the noise of a floating-point sum: `359.41d` is exactly 31053024 seconds
//! and 31053024 samples, where a floating-point total comes out a few
//! nanoseconds longer, one sample more. Likewise a positive value too small
//! for a floating-point number (some hundreds of zeros after the dot) is
//! still positive here.
use vstd::prelude::*;
use vstd::seq_lib::{
    commutative_foldr, lemma_fold_right_permutation, to_multiset_contains, to_multiset_len,
};
use vstd::string::*;

use crate::errors::{
    duplicate_duration_unit, duplicate_unit_text, unsupported_duration_unit,
    unsupported_unit_text, MIXED_DURATION_UNITS,
};
use crate::decimal::{
    decimal_mantissa, decimal_scale, dot_count, le_digits_value, lemma_le_digits_bound,
    lemma_pow10_positive, numeric_len, numeric_prefix_len, pow10, read_decimal, small_digits,
    SCALED_LIMIT,
};
use crate::decimal::is_numeric_char;
use crate::text::{
    chars_of, copy_range, div_round_half_even, is_whitespace_char, push_char, split_at_char,
    string_from_chars, trim, trim_chars, trim_end, trim_start,
};

verus! {

/// The largest total a duration may have, in nanoseconds: `u64::MAX` whole
/// seconds, so that the number of one-second samples fits in a `u64`.
pub const MAX_TOTAL_NANOS: u128 = SCALED_LIMIT;

/// Why a duration was refused.
#[derive(Debug, Clone, PartialEq, Eq)]
pub enum DurationError {
    /// No part was given.
    Missing,
    /// A part is empty or holds only white space.
    EmptyValue,
    /// A part's number cannot be read (it holds more than one `.`, or is a lone `.`).
    InvalidValue(String),
    /// A part's number is zero.
    NotPositiveValue(String),
    /// A part's unit is not `s`, `m`, `h` or `d`.
    UnsupportedUnit(String),
    /// Unitless and unit-based parts are mixed.
    MixedUnits,
    /// More than one unitless part.
    MultipleUnitless,
    /// The same unit occurs in two parts.
    DuplicateUnit(char),
    /// The total exceeds [`MAX_TOTAL_NANOS`].
    TooLarge,
}

/// The mathematical form of a [`DurationError`].
pub enum DurationErrorView {
    Missing,
    EmptyValue,
    InvalidValue(Seq<char>),
    NotPositiveValue(Seq<char>),
    UnsupportedUnit(Seq<char>),
    MixedUnits,
    MultipleUnitless,
    DuplicateUnit(char),
    TooLarge,
}

impl View for DurationError {
    type V = DurationErrorView;

    open spec fn view(&self) -> DurationErrorView {
        match self {
            DurationError::Missing => DurationErrorView::Missing,
            DurationError::EmptyValue => DurationErrorView::EmptyValue,
            DurationError::InvalidValue(s) => DurationErrorView::InvalidValue(s@),
            DurationError::NotPositiveValue(s) => DurationErrorView::NotPositiveValue(s@),
            DurationError::UnsupportedUnit(s) => DurationErrorView::UnsupportedUnit(s@),
            DurationError::MixedUnits => DurationErrorView::MixedUnits,
            DurationError::MultipleUnitless => DurationErrorView::MultipleUnitless,
            DurationError::DuplicateUnit(c) => DurationErrorView::DuplicateUnit(*c),
            DurationError::TooLarge => DurationErrorView::TooLarge,
        }
    }
}

impl DurationErrorView {
    /// The text shown to the user for this error.
    pub open spec fn message(self) -> Seq<char> {
        match self {
            DurationErrorView::Missing => "A monitoring duration is required."@,
            DurationErrorView::EmptyValue => "Duration values cannot be empty."@,
            DurationErrorView::InvalidValue(t) => "Invalid duration value '"@ + t + "'."@,
            DurationErrorView::NotPositiveValue(t) => "Duration value '"@ + t
                + "' must be greater than zero."@,
            DurationErrorView::UnsupportedUnit(u) => unsupported_unit_text(u),
            DurationErrorView::MixedUnits => MIXED_DURATION_UNITS@,
            DurationErrorView::MultipleUnitless =>
                "Unitless duration must be supplied as a single value."@,
            DurationErrorView::DuplicateUnit(c) => duplicate_unit_text(c),
            DurationErrorView::TooLarge => "Duration is too large."@,
        }
    }
}

impl DurationError {
    /// The text shown to the user for this error.
    pub fn message(&self) -> (text: String)
        ensures
            text@ == self@.message(),
    {
        match self {
            DurationError::Missing => "A monitoring duration is required.".to_owned(),
            DurationError::EmptyValue => "Duration values cannot be empty.".to_owned(),
            DurationError::InvalidValue(t) => {
                let mut text = "Invalid duration value '".to_owned();
                text.append(t.as_str());
                text.append("'.");
                text
            },
            DurationError::NotPositiveValue(t) => {
                let mut text = "Duration value '".to_owned();
                text.append(t.as_str());
                text.append("' must be greater than zero.");
                text
            },
            DurationError::UnsupportedUnit(u) => unsupported_duration_unit(u.as_str()),
            DurationError::MixedUnits => MIXED_DURATION_UNITS.to_owned(),
            DurationError::MultipleUnitless =>
                "Unitless duration must be supplied as a single value.".to_owned(),
            DurationError::DuplicateUnit(c) => duplicate_duration_unit(*c),
            DurationError::TooLarge => "Duration is too large.".to_owned(),
        }
    }
}

// ---------------------------------------------------------------------------
// Specification of one part.
// ---------------------------------------------------------------------------

/// A part that was read: its number is `mantissa / 10^scale`.
pub struct PartView {
    pub mantissa: nat,
    pub scale: nat,
    pub unit: Option<char>,
}

/// The unit of a part as written, if it is one of `s`, `m`, `h`, `d`.
pub open spec fn unit_char(unit: Seq<char>) -> Option<char> {
    if unit == seq!['s'] || unit == seq!['m'] || unit == seq!['h'] || unit == seq!['d'] {
        Some(unit[0])
    } else {
        None
    }
}

/// Seconds in one unit (a unitless part counts seconds).
pub open spec fn unit_seconds(unit: Option<char>) -> nat {
    match unit {
        Some(c) => if c == 'm' {
            60
        } else if c == 'h' {
            3600
        } else if c == 'd' {
            86400
        } else {
            1
        },
        None => 1,
    }
}

/// Nanoseconds in one unit.
pub open spec fn unit_nanos(unit: Option<char>) -> nat {
    unit_seconds(unit) * 1_000_000_000
}

/// A part's exact length in nanoseconds times `10^scale` (a whole number).
pub open spec fn part_scaled(p: PartView) -> nat {
    p.mantissa * unit_nanos(p.unit)
}

/// How one part is read: white space around it is ignored, then the longest
/// prefix of digits and dots is its number and the rest is its unit.
pub open spec fn spec_parse_part(text: Seq<char>) -> Result<PartView, DurationErrorView> {
    let t = trim(text);
    let n = numeric_len(t);
    let numeric = t.subrange(0, n as int);
    let unit = t.subrange(n as int, t.len() as int);
    if t.len() == 0 {
        Err(DurationErrorView::EmptyValue)
    } else if n == 0 || numeric == seq!['.'] {
        if unit.len() == 0 {
            Err(DurationErrorView::InvalidValue(t))
        } else {
            Err(DurationErrorView::UnsupportedUnit(unit))
        }
    } else if dot_count(numeric) > 1 {
        Err(DurationErrorView::InvalidValue(t))
    } else if decimal_mantissa(numeric) == 0 {
        Err(DurationErrorView::NotPositiveValue(t))
    } else if unit.len() == 0 {
        Ok(
            PartView {
                mantissa: decimal_mantissa(numeric),
                scale: decimal_scale(numeric),
                unit: None,
            },
        )
    } else if unit_char(unit) is Some {
        Ok(
            PartView {
                mantissa: decimal_mantissa(numeric),
                scale: decimal_scale(numeric),
                unit: unit_char(unit),
            },
        )
    } else {
        Err(DurationErrorView::UnsupportedUnit(unit))
    }
}

// ---------------------------------------------------------------------------
// Specification of a whole duration.
// ---------------------------------------------------------------------------

/// The parts read in order; the first part that cannot be read decides the error.
pub open spec fn spec_parse_parts(texts: Seq<Seq<char>>) -> Result<Seq<PartView>, DurationErrorView>
    decreases texts.len(),
{
    if texts.len() == 0 {
        Ok(seq![])
    } else {
        match spec_parse_part(texts[0]) {
            Err(e) => Err(e),
            Ok(p) => match spec_parse_parts(texts.drop_first()) {
                Err(e) => Err(e),
                Ok(ps) => Ok(seq![p] + ps),
            },
        }
    }
}

/// Some part has no unit.
pub open spec fn has_unitless(ps: Seq<PartView>) -> bool {
    exists|k: int| 0 <= k < ps.len() && (#[trigger] ps[k]).unit is None
}

/// Some part has a unit.
pub open spec fn has_units(ps: Seq<PartView>) -> bool {
    exists|k: int| 0 <= k < ps.len() && (#[trigger] ps[k]).unit is Some
}

/// The first unit, in order, that was already used by an earlier part
/// (`seen` holds the units met so far).
pub open spec fn first_repeated_unit(ps: Seq<PartView>, seen: Seq<char>) -> Option<char>
    decreases ps.len(),
{
    if ps.len() == 0 {
        None
    } else {
        match ps[0].unit {
            None => first_repeated_unit(ps.drop_first(), seen),
            Some(c) => if seen.contains(c) {
                Some(c)
            } else {
                first_repeated_unit(ps.drop_first(), seen.push(c))
            },
        }
    }
}

/// The largest number of decimals among the parts.
pub open spec fn max_scale(ps: Seq<PartView>) -> nat
    decreases ps.len(),
{
    if ps.len() == 0 {
        0
    } else if ps[0].scale > max_scale(ps.drop_first()) {
        ps[0].scale
    } else {
        max_scale(ps.drop_first())
    }
}

/// The exact length of the parts in units of `10^-k` nanoseconds, for `k`
/// at least the number of decimals of every part.
pub open spec fn exact_sum(ps: Seq<PartView>, k: nat) -> nat
    decreases ps.len(),
{
    if ps.len() == 0 {
        0
    } else {
        part_scaled(ps[0]) * pow10((k - ps[0].scale) as nat) + exact_sum(ps.drop_first(), k)
    }
}

/// The length of the parts in nanoseconds: their exact sum, rounded to the
/// nearest nanosecond, halves to even.
pub open spec fn total_nanos(ps: Seq<PartView>) -> nat {
    div_round_half_even(exact_sum(ps, max_scale(ps)), pow10(max_scale(ps)))
}

/// The parts joined with single spaces.
pub open spec fn join_with_spaces(texts: Seq<Seq<char>>) -> Seq<char>
    decreases texts.len(),
{
    if texts.len() == 0 {
        seq![]
    } else if texts.len() == 1 {
        texts[0]
    } else {
        join_with_spaces(texts.drop_last()) + seq![' '] + texts.last()
    }
}

/// The texts of the given strings.
pub open spec fn texts_of(parts: Seq<String>) -> Seq<Seq<char>> {
    parts.map_values(|s: String| s@)
}

/// What [`parse_duration`] gives for the given parts: the total in
/// nanoseconds and the text to show, or the error.
pub open spec fn spec_parse_duration(texts: Seq<Seq<char>>) -> Result<(nat, Seq<char>), DurationErrorView> {
    if texts.len() == 0 {
        Err(DurationErrorView::Missing)
    } else {
        match spec_parse_parts(texts) {
            Err(e) => Err(e),
            Ok(ps) => if has_unitless(ps) && has_units(ps) {
                Err(DurationErrorView::MixedUnits)
            } else if has_unitless(ps) && ps.len() > 1 {
                Err(DurationErrorView::MultipleUnitless)
            } else {
                match first_repeated_unit(ps, seq![]) {
                    Some(c) => Err(DurationErrorView::DuplicateUnit(c)),
                    None => if total_nanos(ps) > MAX_TOTAL_NANOS {
                        Err(DurationErrorView::TooLarge)
                    } else {
                        Ok((total_nanos(ps), join_with_spaces(texts)))
                    },
                }
            },
        }
    }
}

// ---------------------------------------------------------------------------
// The duration type.
// ---------------------------------------------------------------------------

/// A parsed monitoring duration: its exact length and the text it was given as.
#[derive(Debug, PartialEq, Eq)]
pub struct DurationSpec {
    secs: u64,
    subsec_nanos: u32,
    display: String,
}

impl Clone for DurationSpec {
    fn clone(&self) -> (r: Self)
        ensures
            r.view() == self.view(),
    {
        proof {
            use_type_invariant(self);
        }
        DurationSpec {
            secs: self.secs,
            subsec_nanos: self.subsec_nanos,
            display: self.display.clone(),
        }
    }
}

impl DurationSpec {
    #[verifier::type_invariant]
    spec fn well_formed(self) -> bool {
        &&& self.subsec_nanos < 1_000_000_000
        &&& self.secs as nat * 1_000_000_000 + self.subsec_nanos <= MAX_TOTAL_NANOS
    }

    /// The length in nanoseconds and the text to show.
    pub closed spec fn view(self) -> (nat, Seq<char>) {
        ((self.secs as nat * 1_000_000_000 + self.subsec_nanos) as nat, self.display@)
    }

    /// The length as whole seconds and the nanoseconds beyond them.
    pub fn total(&self) -> (r: (u64, u32))
        ensures
            r.1 < 1_000_000_000,
            r.0 as nat * 1_000_000_000 + r.1 == self.view().0,
    {
        proof {
            use_type_invariant(self);
        }
        (self.secs, self.subsec_nanos)
    }

    /// The duration as the user wrote it, its parts joined by spaces.
    pub fn display(&self) -> (r: &str)
        ensures
            r@ == self.view().1,
    {
        self.display.as_str()
    }

    /// The number of one-second samples: the length in seconds, rounded up.
    pub fn sample_seconds(&self) -> (r: u64)
        ensures
            r as nat * 1_000_000_000 >= self.view().0,
            r == 0 || (r - 1) * 1_000_000_000 < self.view().0,
    {
        proof {
            use_type_invariant(self);
        }
        if self.subsec_nanos == 0 {
            self.secs
        } else {
            self.secs + 1
        }
    }
}

// ---------------------------------------------------------------------------
// Arithmetic lemmas.
// ---------------------------------------------------------------------------

// ---------------------------------------------------------------------------
// Rounding the total.
// ---------------------------------------------------------------------------

/// The sum of the parts' lengths, each rounded down.
spec fn sum_floors(ps: Seq<PartView>) -> nat
    decreases ps.len(),
{
    if ps.len() == 0 {
        0
    } else {
        part_floor(ps[0]) + sum_floors(ps.drop_first())
    }
}

/// The digits `d` (least significant first) shifted up to `k` digits.
spec fn aligned(d: Seq<u8>, k: nat) -> Seq<u8> {
    Seq::new(k, |j: int| if j < k - d.len() { 0u8 } else { d[j - (k - d.len())] })
}

/// The sum over the parts of their `j`-th aligned digit.
spec fn col_sum(ds: Seq<Seq<u8>>, k: nat, j: int) -> nat
    decreases ds.len(),
{
    if ds.len() == 0 {
        0
    } else {
        aligned(ds[0], k)[j] as nat + col_sum(ds.drop_first(), k, j)
    }
}

/// The sum over the parts of their lowest `j` aligned digits.
spec fn prefix_sum(ds: Seq<Seq<u8>>, k: nat, j: int) -> nat
    decreases ds.len(),
{
    if ds.len() == 0 {
        0
    } else {
        le_digits_value(aligned(ds[0], k).take(j)) + prefix_sum(ds.drop_first(), k, j)
    }
}

proof fn lemma_pow10_add(a: nat, b: nat)
    ensures
        pow10(a + b) == pow10(a) * pow10(b),
    decreases a,
{
    if a > 0 {
        let a1 = (a - 1) as nat;
        lemma_pow10_add(a1, b);
        assert(a1 + b == (a + b - 1) as nat);
        assert(pow10(a + b) == 10 * pow10(a1 + b));
        assert(pow10(a) == 10 * pow10(a1));
        assert(10 * (pow10(a1) * pow10(b)) == (10 * pow10(a1)) * pow10(b)) by (nonlinear_arith);
    } else {
        assert(pow10(a) == 1);
        assert(a + b == b);
        assert(1 * pow10(b) == pow10(b));
    }
}

proof fn lemma_zero_digits(d: Seq<u8>)
    ensures
        (forall|k: int| 0 <= k < d.len() ==> #[trigger] d[k] == 0) <==> le_digits_value(d) == 0,
    decreases d.len(),
{
    if d.len() > 0 {
        let e = d.drop_last();
        lemma_zero_digits(e);
        lemma_pow10_positive((d.len() - 1) as nat);
        if forall|k: int| 0 <= k < d.len() ==> #[trigger] d[k] == 0 {
            assert(d.last() == d[d.len() - 1]);
            assert forall|k: int| 0 <= k < e.len() implies #[trigger] e[k] == 0 by {
                assert(e[k] == d[k]);
            }
            let q = pow10((d.len() - 1) as nat);
            assert((d.last() as nat) * q == 0) by (nonlinear_arith)
                requires
                    d.last() == 0,
            ;
            assert(le_digits_value(d) == le_digits_value(e) + (d.last() as nat) * q);
        }
        if le_digits_value(d) == 0 {
            let l = d.last() as nat;
            let q = pow10((d.len() - 1) as nat);
            assert(l * q == 0);
            assert(l == 0) by (nonlinear_arith)
                requires
                    l * q == 0,
                    q >= 1,
            ;
            assert forall|k: int| 0 <= k < d.len() implies #[trigger] d[k] == 0 by {
                if k < e.len() {
                    assert(e[k] == d[k]);
                }
            }
        }
    }
}

/// Digits shifted up keep their value times a power of ten.
proof fn lemma_aligned_value(d: Seq<u8>, k: nat)
    requires
        d.len() <= k,
    ensures
        le_digits_value(aligned(d, k)) == pow10((k - d.len()) as nat) * le_digits_value(d),
    decreases k,
{
    let a = aligned(d, k);
    if k > 0 {
        let k1 = (k - 1) as nat;
        if d.len() == 0 {
            lemma_aligned_value(d, k1);
            assert(a.drop_last() =~= aligned(d, k1));
            assert(a.last() == 0);
            assert(le_digits_value(d) == 0);
            assert(pow10(k1) * 0 == 0) by (nonlinear_arith);
            assert(pow10((k - d.len()) as nat) * 0 == 0) by (nonlinear_arith);
        } else {
            let e = d.drop_last();
            lemma_aligned_value(e, k1);
            assert(a.drop_last() =~= aligned(e, k1));
            assert(a.last() == d.last());
            let z = (k - d.len()) as nat;
            assert((k1 - e.len()) as nat == z);
            lemma_pow10_add(z, (d.len() - 1) as nat);
            assert(k1 == z + (d.len() - 1));
            let pz = pow10(z);
            let pl = pow10((d.len() - 1) as nat);
            let v = le_digits_value(e);
            let l = d.last() as nat;
            assert(pz * v + l * (pz * pl) == pz * (v + l * pl)) by (nonlinear_arith);
        }
    } else {
        assert(d.len() == 0);
        assert(a =~= Seq::<u8>::empty());
    }
}

/// Adding one more column of digits.
proof fn lemma_prefix_step(ds: Seq<Seq<u8>>, k: nat, j: int)
    requires
        0 <= j < k,
    ensures
        prefix_sum(ds, k, j + 1) == prefix_sum(ds, k, j) + col_sum(ds, k, j) * pow10(j as nat),
    decreases ds.len(),
{
    if ds.len() > 0 {
        lemma_prefix_step(ds.drop_first(), k, j);
        let a = aligned(ds[0], k);
        assert(a.take(j + 1).drop_last() =~= a.take(j));
        assert(a.take(j + 1).last() == a[j]);
        let c0 = a[j] as nat;
        let c1 = col_sum(ds.drop_first(), k, j);
        let p = pow10(j as nat);
        assert((c0 + c1) * p == c0 * p + c1 * p) by (nonlinear_arith);
    } else {
        assert(0 * pow10(j as nat) == 0) by (nonlinear_arith);
    }
}

proof fn lemma_prefix_zero(ds: Seq<Seq<u8>>, k: nat)
    ensures
        prefix_sum(ds, k, 0) == 0,
    decreases ds.len(),
{
    if ds.len() > 0 {
        lemma_prefix_zero(ds.drop_first(), k);
        assert(aligned(ds[0], k).take(0) =~= Seq::<u8>::empty());
    }
}

proof fn lemma_max_scale_bound(ps: Seq<PartView>)
    ensures
        forall|i: int| 0 <= i < ps.len() ==> (#[trigger] ps[i]).scale <= max_scale(ps),
    decreases ps.len(),
{
    if ps.len() > 0 {
        lemma_max_scale_bound(ps.drop_first());
        assert forall|i: int| 0 <= i < ps.len() implies (#[trigger] ps[i]).scale <= max_scale(
            ps,
        ) by {
            if i > 0 {
                assert(ps[i] == ps.drop_first()[i - 1]);
            }
        }
    }
}

/// The exact sum splits into the parts rounded down and the digits they drop.
proof fn lemma_exact_split(ps: Seq<PartView>, ds: Seq<Seq<u8>>, k: nat)
    requires
        ds.len() == ps.len(),
        forall|i: int| 0 <= i < ps.len() ==> (#[trigger] ps[i]).scale <= k,
        forall|i: int|
            0 <= i < ps.len() ==> (#[trigger] ds[i]).len() == ps[i].scale && le_digits_value(ds[i])
                == part_rem(ps[i]),
    ensures
        exact_sum(ps, k) == pow10(k) * sum_floors(ps) + prefix_sum(ds, k, k as int),
    decreases ps.len(),
{
    if ps.len() > 0 {
        let ps1 = ps.drop_first();
        let ds1 = ds.drop_first();
        assert forall|i: int| 0 <= i < ps1.len() implies (#[trigger] ps1[i]).scale <= k by {
            assert(ps1[i] == ps[i + 1]);
        }
        assert forall|i: int|
            0 <= i < ps1.len() implies (#[trigger] ds1[i]).len() == ps1[i].scale
                && le_digits_value(ds1[i]) == part_rem(ps1[i]) by {
            assert(ps1[i] == ps[i + 1]);
            assert(ds1[i] == ds[i + 1]);
            assert(ds[i + 1].len() == ps[i + 1].scale);
        }
        lemma_exact_split(ps1, ds1, k);
        let p = ps[0];
        let d = ds[0];
        assert(d.len() == p.scale && le_digits_value(d) == part_rem(p));
        let s0 = p.scale;
        lemma_pow10_positive(s0);
        lemma_aligned_value(d, k);
        assert(aligned(d, k).take(k as int) =~= aligned(d, k));
        lemma_pow10_add(s0, (k - s0) as nat);
        assert(s0 + (k - s0) == k);
        vstd::arithmetic::div_mod::lemma_fundamental_div_mod(part_scaled(p) as int, pow10(s0) as int);
        let f = part_floor(p);
        let r = part_rem(p);
        let ps0 = pow10(s0);
        let pz = pow10((k - s0) as nat);
        assert(part_scaled(p) == f * ps0 + r);
        assert((f * ps0 + r) * pz == f * (ps0 * pz) + pz * r) by (nonlinear_arith);
        let rest = sum_floors(ps1);
        assert(pow10(k) == ps0 * pz);
        assert(ps.drop_first() == ps1 && ps[0] == p);
        assert(exact_sum(ps, k) == part_scaled(p) * pz + exact_sum(ps1, k));
        assert(prefix_sum(ds, k, k as int) == le_digits_value(aligned(d, k).take(k as int))
            + prefix_sum(ds1, k, k as int));
        assert(le_digits_value(aligned(d, k).take(k as int)) == pz * r);
        assert(sum_floors(ps) == f + rest);
        assert(part_scaled(p) * pz == pow10(k) * f + pz * r) by (nonlinear_arith)
            requires
                part_scaled(p) == f * ps0 + r,
                pow10(k) == ps0 * pz,
        ;
        assert(pow10(k) * (f + rest) == pow10(k) * f + pow10(k) * rest) by (nonlinear_arith);
    } else {
        assert(pow10(k) * 0 == 0) by (nonlinear_arith);
    }
}

/// The total is at least the sum of the parts rounded down.
proof fn lemma_total_at_least_floors(ps: Seq<PartView>, ds: Seq<Seq<u8>>)
    requires
        ds.len() == ps.len(),
        forall|i: int|
            0 <= i < ps.len() ==> (#[trigger] ds[i]).len() == ps[i].scale && le_digits_value(ds[i])
                == part_rem(ps[i]),
    ensures
        total_nanos(ps) >= sum_floors(ps),
{
    let k = max_scale(ps);
    lemma_max_scale_bound(ps);
    lemma_exact_split(ps, ds, k);
    lemma_pow10_positive(k);
    let p = pow10(k);
    let w = sum_floors(ps);
    let x = exact_sum(ps, k);
    assert(x >= p * w);
    vstd::arithmetic::div_mod::lemma_fundamental_div_mod(x as int, p as int);
    assert(x / p >= w) by (nonlinear_arith)
        requires
            x >= p * w,
            x == p * (x / p) + x % p,
            0 <= x % p < p,
            p >= 1,
    ;
}

// ---------------------------------------------------------------------------
// Reading one part.
// ---------------------------------------------------------------------------

/// A part as the parser keeps it: its unit, its length in nanoseconds
/// rounded down (`None` when that exceeds [`MAX_TOTAL_NANOS`]), and what the
/// rounding drops, as the digits below the nanosecond, least significant
/// first.
struct ParsedPart {
    unit: Option<char>,
    whole: Option<u128>,
    rest: Vec<u8>,
}

/// A part's length in whole nanoseconds, rounded down.
spec fn part_floor(p: PartView) -> nat {
    part_scaled(p) / pow10(p.scale)
}

/// What rounding a part down to whole nanoseconds drops, times `10^scale`.
spec fn part_rem(p: PartView) -> nat {
    part_scaled(p) % pow10(p.scale)
}

spec fn part_matches(part: ParsedPart, view: PartView) -> bool {
    &&& part.unit == view.unit
    &&& match part.whole {
        Some(n) => n == part_floor(view) && n <= MAX_TOTAL_NANOS,
        None => part_floor(view) > MAX_TOTAL_NANOS,
    }
    &&& part.rest@.len() == view.scale
    &&& small_digits(part.rest@)
    &&& le_digits_value(part.rest@) == part_rem(view)
}

fn unit_nanos_exec(unit: Option<char>) -> (n: u128)
    ensures
        n == unit_nanos(unit),
        1_000_000_000 <= n <= 86_400_000_000_000,
{
    match unit {
        Some(c) => if c == 'm' {
            60_000_000_000
        } else if c == 'h' {
            3_600_000_000_000
        } else if c == 'd' {
            86_400_000_000_000
        } else {
            1_000_000_000
        },
        None => 1_000_000_000,
    }
}


/// Reads one part of a duration.
fn parse_duration_part(input: &str) -> (r: Result<ParsedPart, DurationError>)
    ensures
        match spec_parse_part(input@) {
            Ok(v) => r matches Ok(p) && part_matches(p, v),
            Err(e) => r matches Err(err) && err@ == e,
        },
{
    let chars = chars_of(input);
    let t = trim_chars(&chars);
    let len = t.len();
    if len == 0 {
        return Err(DurationError::EmptyValue);
    }
    let n = numeric_prefix_len(&t);
    let unit = copy_range(&t, n, len);
    if n == 0 || (n == 1 && t[0] == '.') {
        assert(n == 1 && t@[0] == '.' ==> t@.subrange(0, n as int) =~= seq!['.']);
        if unit.len() == 0 {
            return Err(DurationError::InvalidValue(string_from_chars(&t)));
        }
        return Err(DurationError::UnsupportedUnit(string_from_chars(&unit)));
    }
    assert(t@.subrange(0, n as int) != seq!['.']) by {
        if t@.subrange(0, n as int) == seq!['.'] {
            assert(t@.subrange(0, n as int).len() == 1);
        }
    }
    let unit_len = unit.len();
    let unit_char_value: Option<char> = if unit_len == 1 && (unit[0] == 's' || unit[0] == 'm'
        || unit[0] == 'h' || unit[0] == 'd') {
        assert(unit@ =~= seq![unit@[0]]);
        Some(unit[0])
    } else {
        assert(unit_char(unit@) is None) by {
            if unit@ == seq!['s'] || unit@ == seq!['m'] || unit@ == seq!['h'] || unit@ == seq![
                'd',
            ] {
                assert(unit@.len() == 1);
            }
        }
        None
    };
    let c = unit_nanos_exec(unit_char_value);
    let read = read_decimal(&t, n, c);
    if !read.valid {
        return Err(DurationError::InvalidValue(string_from_chars(&t)));
    }
    if !read.nonzero {
        return Err(DurationError::NotPositiveValue(string_from_chars(&t)));
    }
    if unit_len != 0 && unit_char_value.is_none() {
        return Err(DurationError::UnsupportedUnit(string_from_chars(&unit)));
    }
    Ok(ParsedPart { unit: unit_char_value, whole: read.scaled, rest: read.remainder })
}

// ---------------------------------------------------------------------------
// Reading a whole duration.
// ---------------------------------------------------------------------------

fn contains_char(v: &Vec<char>, c: char) -> (b: bool)
    ensures
        b == v@.contains(c),
{
    let mut i: usize = 0;
    while i < v.len()
        invariant
            i <= v.len(),
            forall|k: int| 0 <= k < i ==> v@[k] != c,
        decreases v.len() - i,
    {
        if v[i] == c {
            assert(v@[i as int] == c);
            return true;
        }
        i = i + 1;
    }
    false
}

/// The length of the parts in nanoseconds, rounded to the nearest
/// nanosecond, halves to even; `None` when it exceeds [`MAX_TOTAL_NANOS`].
#[verifier::loop_isolation(false)]
fn add_parts(parsed: &Vec<ParsedPart>, Ghost(views): Ghost<Seq<PartView>>) -> (r: Option<u128>)
    requires
        parsed.len() == views.len(),
        parsed.len() >= 1,
        forall|j: int| 0 <= j < views.len() ==> part_matches(#[trigger] parsed@[j], views[j]),
    ensures
        match r {
            Some(t) => t == total_nanos(views) && t <= MAX_TOTAL_NANOS,
            None => total_nanos(views) > MAX_TOTAL_NANOS,
        },
{
    // Add the parts up: first the parts rounded down, then the digits they
    // drop, column by column, then round to the nearest nanosecond.

    let n = parsed.len();
    let ghost ds: Seq<Seq<u8>> = parsed@.map_values(|p: ParsedPart| p.rest@);
    proof {
        assert forall|i: int|
            0 <= i < views.len() implies (#[trigger] ds[i]).len() == views[i].scale
                && le_digits_value(ds[i]) == part_rem(views[i]) by {
            assert(part_matches(parsed@[i], views[i]));
        }
        lemma_max_scale_bound(views);
        lemma_total_at_least_floors(views, ds);
    }
    let mut width: usize = 0;
    let mut k: usize = 0;
    assert(views.skip(0) =~= views);
    while k < n
        invariant
            k <= n == parsed.len() == views.len(),
            forall|j: int| 0 <= j < n ==> part_matches(#[trigger] parsed@[j], views[j]),
            max_scale(views) == if width > max_scale(views.skip(k as int)) {
                width as nat
            } else {
                max_scale(views.skip(k as int))
            },
            forall|j: int| 0 <= j < k ==> (#[trigger] views[j]).scale <= width,
            width as nat <= max_scale(views),
        decreases n - k,
    {
        let ghost rest = views.skip(k as int);
        assert(rest[0] == views[k as int]);
        assert(rest.drop_first() =~= views.skip(k + 1));
        assert(part_matches(parsed@[k as int], views[k as int]));
        if parsed[k].rest.len() > width {
            width = parsed[k].rest.len();
        }
        k = k + 1;
    }
    assert(views.skip(n as int) =~= seq![]);
    let ghost kk = width as nat;
    assert(kk == max_scale(views));
    let mut whole: u128 = 0;
    let mut k: usize = 0;
    assert(views.skip(0) =~= views);
    while k < n
        invariant
            k <= n == parsed.len() == views.len(),
            forall|j: int| 0 <= j < n ==> part_matches(#[trigger] parsed@[j], views[j]),
            whole <= MAX_TOTAL_NANOS,
            sum_floors(views) == whole + sum_floors(views.skip(k as int)),
            total_nanos(views) >= sum_floors(views),
        decreases n - k,
    {
        let ghost rest = views.skip(k as int);
        assert(rest[0] == views[k as int]);
        assert(rest.drop_first() =~= views.skip(k + 1));
        assert(part_matches(parsed@[k as int], views[k as int]));
        match parsed[k].whole {
            None => {
                return None;
            },
            Some(v) => {
                if whole + v > MAX_TOTAL_NANOS {
                    return None;
                }
                whole = whole + v;
            },
        }
        k = k + 1;
    }
    assert(views.skip(n as int) =~= seq![]);
    let mut low: Vec<u8> = Vec::new();
    let mut carry: u128 = 0;
    let mut j: usize = 0;
    proof {
        lemma_prefix_zero(ds, kk);
    }
    while j < width
        invariant
            j <= width,
            kk == width as nat,
            n >= 1,
            n == parsed.len() == views.len() == ds.len(),
            ds == parsed@.map_values(|p: ParsedPart| p.rest@),
            forall|i: int| 0 <= i < n ==> (#[trigger] ds[i]).len() <= kk,
            carry < n,
            low@.len() == j,
            small_digits(low@),
            prefix_sum(ds, kk, j as int) == carry * pow10(j as nat) + le_digits_value(low@),
        decreases width - j,
    {
        let mut column: u128 = carry;
        let mut i: usize = 0;
        assert(ds.skip(0) =~= ds);
        while i < n
            invariant
                i <= n == parsed.len() == ds.len(),
                j < width,
                kk == width as nat,
                ds == parsed@.map_values(|p: ParsedPart| p.rest@),
                forall|i2: int| 0 <= i2 < n ==> (#[trigger] ds[i2]).len() <= kk,
                column <= carry + 9 * i,
                column + col_sum(ds.skip(i as int), kk, j as int) == carry + col_sum(
                    ds,
                    kk,
                    j as int,
                ),
            decreases n - i,
        {
            let ghost tail = ds.skip(i as int);
            assert(tail[0] == ds[i as int]);
            assert(tail.drop_first() =~= ds.skip(i + 1));
            let digits = &parsed[i].rest;
            assert(digits@ == ds[i as int]);
            let len = digits.len();
            let shift = width - len;
            let digit: u8 = if j < shift {
                0
            } else {
                digits[j - shift]
            };
            assert(digit as nat == aligned(ds[i as int], kk)[j as int]);
            assert(digit < 10) by {
                if j >= shift {
                    assert(parsed@[i as int].rest@ == ds[i as int]);
                }
            }
            column = column + digit as u128;
            i = i + 1;
        }
        assert(ds.skip(n as int) =~= Seq::<Seq<u8>>::empty());
        let e = (column % 10) as u8;
        let ghost old_low = low@;
        let ghost old_carry = carry;
        proof {
            lemma_prefix_step(ds, kk, j as int);
        }
        carry = column / 10;
        low.push(e);
        proof {
            let p = pow10(j as nat);
            assert(low@.drop_last() =~= old_low);
            assert(le_digits_value(low@) == le_digits_value(old_low) + (e as nat) * p);
            assert(pow10((j + 1) as nat) == 10 * p);
            assert(column == 10 * carry + e);
            assert(column == old_carry + col_sum(ds, kk, j as int));
            assert((old_carry * p + le_digits_value(old_low)) + col_sum(ds, kk, j as int) * p == (
            carry as nat) * (10 * p) + (le_digits_value(old_low) + (e as nat) * p))
                by (nonlinear_arith)
                requires
                    old_carry + col_sum(ds, kk, j as int) == 10 * carry + e,
            ;
            assert forall|k2: int| 0 <= k2 < low@.len() implies #[trigger] low@[k2] < 10 by {
                if k2 < old_low.len() {
                    assert(low@[k2] == old_low[k2]);
                }
            }
        }
        j = j + 1;
    }
    // Round: the digits below the nanosecond are compared with one half.
    let base: u128 = whole + carry;
    let round_up = if width == 0 {
        false
    } else {
        let top = low[width - 1];
        let mut rest_zero = true;
        let mut i: usize = 0;
        while i < width - 1
            invariant
                i <= width - 1,
                low@.len() == width,
                rest_zero == forall|i2: int| 0 <= i2 < i ==> #[trigger] low@[i2] == 0,
            decreases width - 1 - i,
        {
            if low[i] != 0 {
                rest_zero = false;
            }
            i = i + 1;
        }
        top > 5 || (top == 5 && (!rest_zero || base % 2 == 1))
    };
    proof {
        lemma_pow10_positive(kk);
        lemma_exact_split(views, ds, kk);
        assert(low@.take(width as int) =~= low@);
        lemma_le_digits_bound(low@);
        let pk = pow10(kk);
        let r = le_digits_value(low@);
        let x = exact_sum(views, kk);
        assert(x == pk * (base as nat) + r) by (nonlinear_arith)
            requires
                x == pk * (whole as nat) + ((carry as nat) * pk + r),
                base == whole + carry,
        ;
        vstd::arithmetic::div_mod::lemma_fundamental_div_mod_converse(
            x as int,
            pk as int,
            base as int,
            r as int,
        );
        if width > 0 {
            let rest = low@.drop_last();
            let q = pow10((width - 1) as nat);
            assert(pk == 10 * q);
            assert(r == le_digits_value(rest) + (low@[width - 1] as nat) * q);
            assert(small_digits(rest)) by {
                assert forall|i2: int| 0 <= i2 < rest.len() implies #[trigger] rest[i2] < 10 by {
                    assert(rest[i2] == low@[i2]);
                }
            }
            lemma_le_digits_bound(rest);
            lemma_zero_digits(rest);
            assert((forall|i2: int| 0 <= i2 < width - 1 ==> #[trigger] low@[i2] == 0) <==> (
            forall|i2: int| 0 <= i2 < rest.len() ==> #[trigger] rest[i2] == 0)) by {
                assert forall|i2: int| 0 <= i2 < rest.len() implies rest[i2] == low@[i2] by {}
            }
            let lo = le_digits_value(rest);
            let t = low@[width - 1] as nat;
            assert(t < 10);
            assert(2 * r > pk <==> (t > 5 || (t == 5 && lo > 0))) by (nonlinear_arith)
                requires
                    r == lo + t * q,
                    pk == 10 * q,
                    lo < q,
                    t < 10,
            ;
            assert(2 * r == pk <==> (t == 5 && lo == 0)) by (nonlinear_arith)
                requires
                    r == lo + t * q,
                    pk == 10 * q,
                    lo < q,
                    t < 10,
            ;
        } else {
            assert(low@ =~= Seq::<u8>::empty());
            assert(r == 0);
        }
        assert(total_nanos(views) == if round_up { base + 1 } else { base as int });
    }
    let total: u128 = if round_up {
        base + 1
    } else {
        base
    };
    if total > MAX_TOTAL_NANOS {
        return None;
    }
    Some(total)
}

/// Reads a monitoring duration from its parts, such as `["1h", "30m"]`.
///
/// The result is exactly [`spec_parse_duration`]: the parts are read in
/// order, then unitless and unit-based parts may not be mixed, a unitless
/// value must stand alone, no unit may repeat, and the total may not exceed
/// [`MAX_TOTAL_NANOS`].
#[verifier::loop_isolation(false)]
#[verifier::rlimit(30)]
pub fn parse_duration(parts: &[String]) -> (r: Result<DurationSpec, DurationError>)
    ensures
        spec_parse_duration(texts_of(parts@)) == match r {
            Ok(d) => Ok(d.view()),
            Err(e) => Err(e@),
        },
{
    let ghost texts = texts_of(parts@);
    let n = parts.len();
    if n == 0 {
        return Err(DurationError::Missing);
    }
    // Read every part; the first one that cannot be read decides the error.

    let mut parsed: Vec<ParsedPart> = Vec::new();
    let ghost mut views: Seq<PartView> = seq![];
    let mut i: usize = 0;
    assert(texts.skip(0) =~= texts);
    while i < n
        invariant
            i <= n == parts.len(),
            texts == texts_of(parts@),
            texts.len() == n,
            parsed.len() == i,
            views.len() == i,
            forall|k: int| 0 <= k < i ==> part_matches(#[trigger] parsed@[k], views[k]),
            spec_parse_parts(texts) == match spec_parse_parts(texts.skip(i as int)) {
                Err(e) => Err(e),
                Ok(ps) => Ok(views + ps),
            },
        decreases n - i,
    {
        let part = parse_duration_part(parts[i].as_str());
        let ghost rest = texts.skip(i as int);
        proof {
            assert(rest[0] == texts[i as int]);
            assert(texts[i as int] == parts@[i as int]@);
            assert(rest.drop_first() =~= texts.skip(i + 1));
        }
        match part {
            Err(e) => {
                return Err(e);
            },
            Ok(p) => {
                let ghost v = spec_parse_part(texts[i as int])->Ok_0;
                proof {
                    match spec_parse_parts(texts.skip(i + 1)) {
                        Err(e) => {},
                        Ok(ps) => {
                            assert(views + (seq![v] + ps) =~= views.push(v) + ps);
                        },
                    }
                    views = views.push(v);
                }
                parsed.push(p);
            },
        }
        i = i + 1;
    }
    assert(texts.skip(n as int) =~= seq![]);
    assert(views + seq![] =~= views);
    // Unitless and unit-based parts may not be mixed.

    let mut unitless = false;
    let mut with_unit = false;
    let mut k: usize = 0;
    while k < n
        invariant
            k <= n == parsed.len() == views.len(),
            forall|j: int| 0 <= j < n ==> part_matches(#[trigger] parsed@[j], views[j]),
            unitless == exists|j: int| 0 <= j < k && (#[trigger] views[j]).unit is None,
            with_unit == exists|j: int| 0 <= j < k && (#[trigger] views[j]).unit is Some,
        decreases n - k,
    {
        assert(part_matches(parsed@[k as int], views[k as int]));
        if parsed[k].unit.is_none() {
            unitless = true;
        } else {
            with_unit = true;
        }
        k = k + 1;
    }
    if unitless && with_unit {
        return Err(DurationError::MixedUnits);
    }
    if unitless && n > 1 {
        return Err(DurationError::MultipleUnitless);
    }
    // No unit may be used twice.

    let mut seen: Vec<char> = Vec::new();
    let mut k: usize = 0;
    assert(views.skip(0) =~= views);
    while k < n
        invariant
            k <= n == parsed.len() == views.len(),
            forall|j: int| 0 <= j < n ==> part_matches(#[trigger] parsed@[j], views[j]),
            first_repeated_unit(views, seq![]) == first_repeated_unit(
                views.skip(k as int),
                seen@,
            ),
        decreases n - k,
    {
        let ghost rest = views.skip(k as int);
        assert(rest[0] == views[k as int]);
        assert(rest.drop_first() =~= views.skip(k + 1));
        assert(part_matches(parsed@[k as int], views[k as int]));
        match parsed[k].unit {
            None => {},
            Some(c) => {
                if contains_char(&seen, c) {
                    return Err(DurationError::DuplicateUnit(c));
                }
                seen.push(c);
            },
        }
        k = k + 1;
    }
    assert(views.skip(n as int) =~= seq![]);
    // Add the parts up.

    let total = match add_parts(&parsed, Ghost(views)) {
        None => {
            return Err(DurationError::TooLarge);
        },
        Some(t) => t,
    };
    // Join the parts as written.

    let mut display = String::new();
    let mut k: usize = 0;
    assert(texts.take(0) =~= seq![]);
    while k < n
        invariant
            k <= n == parts.len(),
            texts == texts_of(parts@),
            texts.len() == n,
            display@ == join_with_spaces(texts.take(k as int)),
        decreases n - k,
    {
        let ghost next = texts.take(k + 1);
        assert(next.drop_last() =~= texts.take(k as int));
        assert(next.last() == parts@[k as int]@);
        if k > 0 {
            push_char(&mut display, ' ');
        } else {
            assert(next.len() == 1);
        }
        display.append(parts[k].as_str());
        k = k + 1;
    }
    assert(texts.take(n as int) =~= texts);
    let secs = (total / 1_000_000_000) as u64;
    let subsec_nanos = (total % 1_000_000_000) as u32;
    Ok(DurationSpec { secs, subsec_nanos, display })
}

// ---------------------------------------------------------------------------
// Laws.
// ---------------------------------------------------------------------------

/// A number followed by a character that is not part of numbers: the
/// number's length is the numeric prefix.
pub(crate) proof fn lemma_numeric_len_of_number(x: Seq<char>, tail: Seq<char>)
    requires
        forall|k: int| 0 <= k < x.len() ==> is_numeric_char(#[trigger] x[k]),
        tail.len() == 0 || !is_numeric_char(tail[0]),
    ensures
        numeric_len(x + tail) == x.len(),
    decreases x.len(),
{
    if x.len() > 0 {
        assert((x + tail).drop_first() =~= x.drop_first() + tail);
        assert((x + tail)[0] == x[0]);
        assert forall|k: int| 0 <= k < x.drop_first().len() implies is_numeric_char(
            #[trigger] x.drop_first()[k],
        ) by {
            assert(x.drop_first()[k] == x[k + 1]);
        }
        lemma_numeric_len_of_number(x.drop_first(), tail);
    } else {
        assert(x + tail =~= tail);
    }
}

/// A text that starts and ends with characters that are not white space is
/// its own trim.
proof fn lemma_trim_unchanged(x: Seq<char>)
    requires
        x.len() > 0,
        !is_whitespace_char(x[0]),
        !is_whitespace_char(x.last()),
    ensures
        trim(x) == x,
{
    assert(trim_start(x) == x);
    assert(trim_end(x) == x);
}

/// The part a number alone reads as, and the part it reads as with `unit`.
proof fn lemma_number_part(x: Seq<char>, unit: char)
    requires
        x.len() > 0,
        forall|k: int| 0 <= k < x.len() ==> is_numeric_char(#[trigger] x[k]),
        spec_parse_part(x) is Ok,
        unit == 's' || unit == 'm' || unit == 'h' || unit == 'd',
    ensures
        spec_parse_part(x)->Ok_0.unit is None,
        spec_parse_part(x.push(unit)) == Ok::<PartView, DurationErrorView>(
            PartView { unit: Some(unit), ..spec_parse_part(x)->Ok_0 },
        ),
{
    let y = x.push(unit);
    assert(is_numeric_char(x[0]));
    assert(is_numeric_char(x.last()));
    lemma_trim_unchanged(x);
    assert(y[0] == x[0]);
    assert(y.last() == unit);
    lemma_trim_unchanged(y);
    lemma_numeric_len_of_number(x, seq![]);
    assert(x + seq![] =~= x);
    lemma_numeric_len_of_number(x, seq![unit]);
    assert(x + seq![unit] =~= y);
    assert(x.subrange(0, x.len() as int) =~= x);
    assert(x.subrange(x.len() as int, x.len() as int) =~= seq![]);
    assert(y.subrange(0, x.len() as int) =~= x);
    assert(y.subrange(x.len() as int, y.len() as int) =~= seq![unit]);
}

/// A value without a unit counts seconds: `x` and `x` followed by `s` give
/// the same duration.
pub proof fn law_unitless_is_seconds(x: Seq<char>)
    requires
        x.len() > 0,
        forall|k: int| 0 <= k < x.len() ==> is_numeric_char(#[trigger] x[k]),
        spec_parse_duration(seq![x]) is Ok,
    ensures
        spec_parse_duration(seq![x.push('s')]) == Ok::<(nat, Seq<char>), DurationErrorView>(
            (spec_parse_duration(seq![x])->Ok_0.0, x.push('s')),
        ),
{
    let y = x.push('s');
    assert(seq![x].drop_first() =~= seq![]);
    assert(seq![y].drop_first() =~= seq![]);
    lemma_number_part(x, 's');
    let px = spec_parse_part(x)->Ok_0;
    let py = spec_parse_part(y)->Ok_0;
    assert(spec_parse_parts(seq![x]) == Ok::<Seq<PartView>, DurationErrorView>(seq![px] + seq![]));
    assert(spec_parse_parts(seq![y]) == Ok::<Seq<PartView>, DurationErrorView>(seq![py] + seq![]));
    let ps = seq![px] + seq![];
    let qs = seq![py] + seq![];
    assert(qs.len() == 1 && qs[0] == py);
    assert(ps.len() == 1 && ps[0] == px);
    assert(has_units(qs));
    assert(!has_unitless(qs)) by {
        if has_unitless(qs) {
            let k = choose|k: int| 0 <= k < qs.len() && (#[trigger] qs[k]).unit is None;
            assert(qs[k] == py);
        }
    }
    assert(!Seq::<char>::empty().contains('s'));
    assert(qs.drop_first() =~= seq![]);
    assert(first_repeated_unit(qs.drop_first(), Seq::<char>::empty().push('s')) is None);
    assert(first_repeated_unit(qs, seq![]) is None);
    assert(ps.drop_first() =~= seq![]);
    assert(part_scaled(px) == part_scaled(py));
    assert(max_scale(ps.drop_first()) == 0);
    assert(max_scale(qs.drop_first()) == 0);
    assert(max_scale(ps) == px.scale);
    assert(max_scale(qs) == py.scale);
    let k = max_scale(ps);
    assert(exact_sum(ps, k) == exact_sum(qs, k));
    assert(total_nanos(ps) == total_nanos(qs));
    assert(join_with_spaces(seq![y]) == y);
}

// ---------------------------------------------------------------------------
// How the duration is shown.
// ---------------------------------------------------------------------------

/// The total number of characters of the texts.
pub open spec fn total_length(texts: Seq<Seq<char>>) -> nat
    decreases texts.len(),
{
    if texts.len() == 0 {
        0
    } else {
        total_length(texts.drop_last()) + texts.last().len()
    }
}

proof fn lemma_split_nonempty(y: Seq<char>, sep: char)
    ensures
        split_at_char(y, sep).len() >= 1,
    decreases y.len(),
{
    if y.len() > 0 {
        lemma_split_nonempty(y.drop_last(), sep);
    }
}

/// Text without a space extends the last field of a split.
proof fn lemma_split_append_plain(y: Seq<char>, l: Seq<char>)
    requires
        forall|k: int| 0 <= k < l.len() ==> #[trigger] l[k] != ' ',
    ensures
        split_at_char(y + l, ' ') == split_at_char(y, ' ').drop_last().push(
            split_at_char(y, ' ').last() + l,
        ),
    decreases l.len(),
{
    lemma_split_nonempty(y, ' ');
    let g = split_at_char(y, ' ');
    if l.len() == 0 {
        assert(y + l =~= y);
        assert(g.last() + l =~= g.last());
        assert(g.drop_last().push(g.last()) =~= g);
    } else {
        let l1 = l.drop_last();
        assert forall|k: int| 0 <= k < l1.len() implies #[trigger] l1[k] != ' ' by {
            assert(l1[k] == l[k]);
        }
        lemma_split_append_plain(y, l1);
        assert((y + l).drop_last() =~= y + l1);
        assert((y + l).last() == l.last());
        assert(l.last() == l[l.len() - 1]);
        let f = split_at_char(y + l1, ' ');
        assert(f.drop_last() =~= g.drop_last());
        assert(f.last() == g.last() + l1);
        assert((g.last() + l1).push(l.last()) =~= g.last() + l);
        assert(f.drop_last().push(f.last().push(l.last())) =~= g.drop_last().push(g.last() + l));
    }
}

/// Splitting texts joined by spaces at the spaces gives them back, when
/// none of them holds a space.
proof fn lemma_join_split(texts: Seq<Seq<char>>)
    requires
        texts.len() >= 1,
        forall|i: int, k: int|
            0 <= i < texts.len() && 0 <= k < texts[i].len() ==> #[trigger] texts[i][k] != ' ',
    ensures
        split_at_char(join_with_spaces(texts), ' ') == texts,
    decreases texts.len(),
{
    let last = texts.last();
    assert forall|k: int| 0 <= k < last.len() implies #[trigger] last[k] != ' ' by {
        assert(texts[texts.len() - 1][k] != ' ');
    }
    if texts.len() == 1 {
        lemma_split_append_plain(seq![], last);
        assert(Seq::<char>::empty() + last =~= last);
        assert(split_at_char(Seq::<char>::empty(), ' ') == seq![Seq::<char>::empty()]);
        assert(seq![Seq::<char>::empty()].drop_last().push(Seq::<char>::empty() + last) =~= texts);
    } else {
        let init = texts.drop_last();
        assert forall|i: int, k: int|
            0 <= i < init.len() && 0 <= k < init[i].len() implies #[trigger] init[i][k] != ' ' by {
            assert(init[i] == texts[i]);
            assert(texts[i][k] != ' ');
        }
        lemma_join_split(init);
        let x = join_with_spaces(init);
        let xs = x + seq![' '];
        assert(xs.drop_last() =~= x);
        assert(xs.last() == ' ');
        assert(split_at_char(xs, ' ') == split_at_char(x, ' ').push(seq![]));
        lemma_split_append_plain(xs, last);
        assert(join_with_spaces(texts) == xs + last);
        assert(split_at_char(x, ' ').push(seq![]).drop_last() =~= init);
        assert(Seq::<char>::empty() + last =~= last);
        assert(init.push(last) =~= texts);
    }
}

proof fn lemma_join_length(texts: Seq<Seq<char>>)
    requires
        texts.len() >= 1,
    ensures
        join_with_spaces(texts).len() + 1 == total_length(texts) + texts.len(),
    decreases texts.len(),
{
    if texts.len() > 1 {
        lemma_join_length(texts.drop_last());
    } else {
        assert(texts.drop_last().len() == 0);
        assert(total_length(texts.drop_last()) == 0);
        assert(texts.last() == texts[0]);
        assert(join_with_spaces(texts) == texts[0]);
    }
}

/// A duration is shown as its parts joined by single spaces: it has as
/// many characters as the parts together plus one between each two, and
/// when no part holds a space, splitting it at its spaces gives the parts
/// back, in order.
pub proof fn law_display_joins_parts(texts: Seq<Seq<char>>)
    requires
        spec_parse_duration(texts) is Ok,
    ensures
        spec_parse_duration(texts)->Ok_0.1.len() + 1 == total_length(texts) + texts.len(),
        (forall|i: int, k: int|
            0 <= i < texts.len() && 0 <= k < texts[i].len() ==> #[trigger] texts[i][k] != ' ')
            ==> split_at_char(spec_parse_duration(texts)->Ok_0.1, ' ') == texts,
{
    lemma_join_length(texts);
    if forall|i: int, k: int|
        0 <= i < texts.len() && 0 <= k < texts[i].len() ==> #[trigger] texts[i][k] != ' ' {
        lemma_join_split(texts);
    }
}

// ---------------------------------------------------------------------------
// The order of the parts.
// ---------------------------------------------------------------------------

/// Takes the larger of a part's number of decimals and a running maximum.
spec fn scale_step() -> spec_fn(Seq<char>, nat) -> nat {
    |t: Seq<char>, acc: nat|
        if spec_parse_part(t)->Ok_0.scale > acc {
            spec_parse_part(t)->Ok_0.scale
        } else {
            acc
        }
}

/// Adds a part's exact length, in units of `10^-k` nanoseconds, to a running total.
spec fn sum_step(k: nat) -> spec_fn(Seq<char>, nat) -> nat {
    |t: Seq<char>, acc: nat|
        part_scaled(spec_parse_part(t)->Ok_0) * pow10((k - spec_parse_part(t)->Ok_0.scale) as nat)
            + acc
}

/// Counts a part whose unit is `c`.
spec fn unit_step(c: char) -> spec_fn(Seq<char>, nat) -> nat {
    |t: Seq<char>, acc: nat| (if spec_parse_part(t)->Ok_0.unit == Some(c) { 1nat } else { 0nat }) + acc
}

/// How many parts have the unit `c`.
spec fn count_unit(ps: Seq<PartView>, c: char) -> nat
    decreases ps.len(),
{
    if ps.len() == 0 {
        0
    } else {
        (if ps[0].unit == Some(c) { 1nat } else { 0nat }) + count_unit(ps.drop_first(), c)
    }
}

/// The parts can be read exactly when each one can, and then each is read
/// on its own.
proof fn lemma_parse_parts_ok(texts: Seq<Seq<char>>)
    ensures
        spec_parse_parts(texts) is Ok <==> forall|k: int|
            0 <= k < texts.len() ==> (#[trigger] spec_parse_part(texts[k])) is Ok,
        spec_parse_parts(texts) is Ok ==> spec_parse_parts(texts)->Ok_0.len() == texts.len(),
        spec_parse_parts(texts) is Ok ==> forall|k: int|
            0 <= k < texts.len() ==> spec_parse_parts(texts)->Ok_0[k] == (#[trigger] spec_parse_part(
                texts[k],
            ))->Ok_0,
    decreases texts.len(),
{
    if texts.len() > 0 {
        let rest = texts.drop_first();
        lemma_parse_parts_ok(rest);
        assert forall|k: int| 0 <= k < rest.len() implies rest[k] == texts[k + 1] by {}
        if forall|k: int| 0 <= k < texts.len() ==> (#[trigger] spec_parse_part(texts[k])) is Ok {
            assert(spec_parse_part(texts[0]) is Ok);
            assert forall|k: int| 0 <= k < rest.len() implies (#[trigger] spec_parse_part(
                rest[k],
            )) is Ok by {
                assert(spec_parse_part(texts[k + 1]) is Ok);
            }
        }
        if spec_parse_parts(texts) is Ok {
            let ps = spec_parse_parts(texts)->Ok_0;
            let qs = spec_parse_parts(rest)->Ok_0;
            assert(ps == seq![spec_parse_part(texts[0])->Ok_0] + qs);
            assert forall|k: int| 0 <= k < texts.len() implies ps[k] == (#[trigger] spec_parse_part(
                texts[k],
            ))->Ok_0 && spec_parse_part(texts[k]) is Ok by {
                if k > 0 {
                    assert(rest[k - 1] == texts[k]);
                    assert(spec_parse_part(rest[k - 1]) is Ok);
                }
            }
        }
    }
}

/// The largest number of decimals is a fold over the texts.
proof fn lemma_max_as_fold(texts: Seq<Seq<char>>, ps: Seq<PartView>)
    requires
        ps.len() == texts.len(),
        forall|k: int| 0 <= k < texts.len() ==> ps[k] == (#[trigger] spec_parse_part(texts[k]))->Ok_0,
    ensures
        max_scale(ps) == texts.fold_right(scale_step(), 0),
    decreases texts.len(),
{
    texts.lemma_fold_right_alt(scale_step(), 0);
    if texts.len() > 0 {
        let rest = texts.subrange(1, texts.len() as int);
        assert forall|k: int| 0 <= k < rest.len() implies ps.drop_first()[k] == (#[trigger] spec_parse_part(
            rest[k],
        ))->Ok_0 by {
            assert(rest[k] == texts[k + 1]);
            assert(spec_parse_part(texts[k + 1]) == spec_parse_part(rest[k]));
        }
        lemma_max_as_fold(rest, ps.drop_first());
        rest.lemma_fold_right_alt(scale_step(), 0);
        assert(spec_parse_part(texts[0])->Ok_0 == ps[0]);
    }
}

/// The exact sum of the parts is a fold over their texts.
proof fn lemma_sum_as_fold(texts: Seq<Seq<char>>, ps: Seq<PartView>, k0: nat)
    requires
        ps.len() == texts.len(),
        forall|k: int| 0 <= k < texts.len() ==> ps[k] == (#[trigger] spec_parse_part(texts[k]))->Ok_0,
    ensures
        exact_sum(ps, k0) == texts.fold_right(sum_step(k0), 0),
    decreases texts.len(),
{
    texts.lemma_fold_right_alt(sum_step(k0), 0);
    if texts.len() > 0 {
        let rest = texts.subrange(1, texts.len() as int);
        assert forall|k: int| 0 <= k < rest.len() implies ps.drop_first()[k] == (#[trigger] spec_parse_part(
            rest[k],
        ))->Ok_0 by {
            assert(rest[k] == texts[k + 1]);
            assert(spec_parse_part(texts[k + 1]) == spec_parse_part(rest[k]));
        }
        lemma_sum_as_fold(rest, ps.drop_first(), k0);
        rest.lemma_fold_right_alt(sum_step(k0), 0);
        assert(spec_parse_part(texts[0])->Ok_0 == ps[0]);
    }
}

/// The number of parts with a unit is a sum over their texts.
proof fn lemma_count_as_fold(texts: Seq<Seq<char>>, ps: Seq<PartView>, c: char)
    requires
        ps.len() == texts.len(),
        forall|k: int| 0 <= k < texts.len() ==> ps[k] == (#[trigger] spec_parse_part(texts[k]))->Ok_0,
    ensures
        count_unit(ps, c) == texts.fold_right(unit_step(c), 0),
    decreases texts.len(),
{
    texts.lemma_fold_right_alt(unit_step(c), 0);
    if texts.len() > 0 {
        let rest = texts.subrange(1, texts.len() as int);
        assert forall|k: int| 0 <= k < rest.len() implies ps.drop_first()[k] == (#[trigger] spec_parse_part(
            rest[k],
        ))->Ok_0 by {
            assert(rest[k] == texts[k + 1]);
            assert(spec_parse_part(texts[k + 1]) == spec_parse_part(rest[k]));
        }
        lemma_count_as_fold(rest, ps.drop_first(), c);
        rest.lemma_fold_right_alt(unit_step(c), 0);
        assert(spec_parse_part(texts[0])->Ok_0 == ps[0]);
    }
}

/// No unit repeats exactly when each unit is used at most once, and not at
/// all when it is among the units already seen.
proof fn lemma_no_repeated_unit(ps: Seq<PartView>, seen: Seq<char>)
    ensures
        first_repeated_unit(ps, seen) is None <==> forall|c: char|
            #[trigger] count_unit(ps, c) + (if seen.contains(c) { 1nat } else { 0nat }) <= 1,
    decreases ps.len(),
{
    if ps.len() > 0 {
        let rest = ps.drop_first();
        match ps[0].unit {
            None => {
                lemma_no_repeated_unit(rest, seen);
                assert forall|c: char|
                    #![trigger count_unit(ps, c)]
                    #![trigger count_unit(rest, c)]
                    count_unit(ps, c) == count_unit(rest, c) by {}
            },
            Some(u) => {
                if seen.contains(u) {
                    assert(count_unit(ps, u) >= 1);
                } else {
                    let seen2 = seen.push(u);
                    lemma_no_repeated_unit(rest, seen2);
                    assert forall|c: char| #[trigger] seen2.contains(c) <==> (seen.contains(c) || c == u) by {
                        if seen.contains(c) {
                            let i = choose|i: int| 0 <= i < seen.len() && seen[i] == c;
                            assert(seen2[i] == c);
                        }
                        if c == u {
                            assert(seen2[seen.len() as int] == c);
                        }
                        if seen2.contains(c) {
                            let i = choose|i: int| 0 <= i < seen2.len() && seen2[i] == c;
                            if i < seen.len() {
                                assert(seen[i] == c);
                            }
                        }
                    }
                    assert forall|c: char|
                        #![trigger count_unit(ps, c)]
                        #![trigger count_unit(rest, c)]
                        count_unit(ps, c) + (if seen.contains(c) { 1nat } else { 0nat }) == count_unit(
                            rest,
                            c,
                        ) + (if seen2.contains(c) { 1nat } else { 0nat }) by {
                        assert(seen2.contains(c) <==> (seen.contains(c) || c == u));
                    }
                }
            },
        }
    }
}

/// The order of the parts does not matter: any reordering of the parts of a
/// duration is a duration of the same length.
pub proof fn law_part_order(texts: Seq<Seq<char>>, reordered: Seq<Seq<char>>)
    requires
        reordered.to_multiset() == texts.to_multiset(),
        spec_parse_duration(texts) is Ok,
    ensures
        spec_parse_duration(reordered) is Ok,
        spec_parse_duration(reordered)->Ok_0.0 == spec_parse_duration(texts)->Ok_0.0,
{
    lemma_parse_parts_ok(texts);
    let ps = spec_parse_parts(texts)->Ok_0;
    assert(reordered.len() == texts.len()) by {
        to_multiset_len(reordered);
        to_multiset_len(texts);
    }
    // Each reordered part is one of the parts.
    assert forall|k: int| 0 <= k < reordered.len() implies exists|j: int|
        0 <= j < texts.len() && texts[j] == #[trigger] reordered[k] by {
        assert(reordered.contains(reordered[k]));
        to_multiset_contains(reordered, reordered[k]);
        to_multiset_contains(texts, reordered[k]);
        assert(texts.contains(reordered[k]));
    }
    assert forall|k: int| 0 <= k < reordered.len() implies (#[trigger] spec_parse_part(
        reordered[k],
    )) is Ok by {
        let j = choose|j: int| 0 <= j < texts.len() && texts[j] == reordered[k];
        assert(spec_parse_part(texts[j]) is Ok);
    }
    lemma_parse_parts_ok(reordered);
    let qs = spec_parse_parts(reordered)->Ok_0;
    assert(has_unitless(qs) ==> has_unitless(ps)) by {
        if has_unitless(qs) {
            let k = choose|k: int| 0 <= k < qs.len() && (#[trigger] qs[k]).unit is None;
            let j = choose|j: int| 0 <= j < texts.len() && texts[j] == reordered[k];
            assert(spec_parse_part(reordered[k]) == spec_parse_part(texts[j]));
            assert(ps[j].unit is None);
        }
    }
    assert(has_units(qs) ==> has_units(ps)) by {
        if has_units(qs) {
            let k = choose|k: int| 0 <= k < qs.len() && (#[trigger] qs[k]).unit is Some;
            let j = choose|j: int| 0 <= j < texts.len() && texts[j] == reordered[k];
            assert(spec_parse_part(reordered[k]) == spec_parse_part(texts[j]));
            assert(ps[j].unit is Some);
        }
    }
    // Each unit is used as often in both orders.
    lemma_no_repeated_unit(ps, seq![]);
    lemma_no_repeated_unit(qs, seq![]);
    assert forall|c: char| #[trigger] count_unit(qs, c) == count_unit(ps, c) by {
        lemma_count_as_fold(texts, ps, c);
        lemma_count_as_fold(reordered, qs, c);
        assert(commutative_foldr(unit_step(c)));
        lemma_fold_right_permutation(reordered, texts, unit_step(c), 0);
    }
    assert(first_repeated_unit(qs, seq![]) is None) by {
        assert forall|c: char| #[trigger] count_unit(qs, c) + (if Seq::<char>::empty().contains(
            c,
        ) {
            1nat
        } else {
            0nat
        }) <= 1 by {
            assert(count_unit(ps, c) + (if Seq::<char>::empty().contains(c) {
                1nat
            } else {
                0nat
            }) <= 1);
        }
    }
    // The total rounds a maximum and a sum, neither of which depends on the order.
    lemma_max_as_fold(texts, ps);
    lemma_max_as_fold(reordered, qs);
    assert(commutative_foldr(scale_step()));
    lemma_fold_right_permutation(reordered, texts, scale_step(), 0);
    let k0 = max_scale(ps);
    lemma_sum_as_fold(texts, ps, k0);
    lemma_sum_as_fold(reordered, qs, k0);
    assert(commutative_foldr(sum_step(k0)));
    lemma_fold_right_permutation(reordered, texts, sum_step(k0), 0);
}

} // verus!

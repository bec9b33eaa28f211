//! Character-level helpers shared by the parsers and formatters.
use vstd::prelude::*;
use vstd::string::*;
use vstd::std_specs::iter::IteratorSpec;

verus! {

broadcast use vstd::string::group_string_axioms;

/// The characters of `s`, in order.
pub fn chars_of(s: &str) -> (v: Vec<char>)
    ensures
        v@ == s@,
{
    let mut it = s.chars();
    let mut v: Vec<char> = Vec::new();
    loop
        invariant
            v@ + it.remaining() == s@,
            it.decrease() is Some,
        ensures
            v@ == s@,
        decreases it.decrease()->0,
    {
        match it.next() {
            Some(c) => {
                v.push(c);
            },
            None => {
                assert(v@ =~= v@ + it.remaining());
                break;
            },
        }
    }
    v
}

/// Appends one character to a string with `String::push`. Trusted: the
/// string afterwards holds its old characters followed by `c`, as the
/// standard library documents.
#[verifier::external_body]
pub(crate) fn push_char(s: &mut String, c: char)
    ensures
        final(s)@ == old(s)@.push(c),
{
    s.push(c);
}

/// Builds a string from a character vector.
pub fn string_from_chars(v: &Vec<char>) -> (s: String)
    ensures
        s@ == v@,
{
    let mut s = String::new();
    let mut i: usize = 0;
    while i < v.len()
        invariant
            i <= v.len(),
            s@ == v@.subrange(0, i as int),
        decreases v.len() - i,
    {
        push_char(&mut s, v[i]);
        i = i + 1;
        assert(s@ =~= v@.subrange(0, i as int));
    }
    assert(v@.subrange(0, v.len() as int) =~= v@);
    s
}


/// `char::is_whitespace`: the characters with the Unicode `White_Space` property.
pub open spec fn is_whitespace_char(c: char) -> bool {
    let n = c as u32;
    ||| 0x9 <= n <= 0xD
    ||| n == 0x20
    ||| n == 0x85
    ||| n == 0xA0
    ||| n == 0x1680
    ||| 0x2000 <= n <= 0x200A
    ||| n == 0x2028
    ||| n == 0x2029
    ||| n == 0x202F
    ||| n == 0x205F
    ||| n == 0x3000
}

/// Whether `c` is white space, as `char::is_whitespace` decides.
pub fn is_whitespace(c: char) -> (b: bool)
    ensures
        b == is_whitespace_char(c),
{
    let n = c as u32;
    (0x9 <= n && n <= 0xD) || n == 0x20 || n == 0x85 || n == 0xA0 || n == 0x1680 || (0x2000 <= n
        && n <= 0x200A) || n == 0x2028 || n == 0x2029 || n == 0x202F || n == 0x205F || n == 0x3000
}

/// `s` without its leading white space.
pub open spec fn trim_start(s: Seq<char>) -> Seq<char>
    decreases s.len(),
{
    if s.len() > 0 && is_whitespace_char(s[0]) {
        trim_start(s.drop_first())
    } else {
        s
    }
}

/// `s` without its trailing white space.
pub open spec fn trim_end(s: Seq<char>) -> Seq<char>
    decreases s.len(),
{
    if s.len() > 0 && is_whitespace_char(s.last()) {
        trim_end(s.drop_last())
    } else {
        s
    }
}

/// `s` without leading and trailing white space (`str::trim`).
pub open spec fn trim(s: Seq<char>) -> Seq<char> {
    trim_end(trim_start(s))
}

/// An ASCII decimal digit.
pub open spec fn is_digit_char(c: char) -> bool {
    '0' <= c <= '9'
}

/// The value of an ASCII decimal digit.
pub open spec fn digit_value(c: char) -> nat {
    (c as int - '0' as int) as nat
}

/// The characters of `v` from `start` up to, not including, `end`.
pub fn copy_range(v: &Vec<char>, start: usize, end: usize) -> (r: Vec<char>)
    requires
        start <= end <= v.len(),
    ensures
        r@ == v@.subrange(start as int, end as int),
{
    let mut r: Vec<char> = Vec::new();
    let mut i = start;
    while i < end
        invariant
            start <= i <= end <= v.len(),
            r@ == v@.subrange(start as int, i as int),
        decreases end - i,
    {
        r.push(v[i]);
        i = i + 1;
        assert(r@ =~= v@.subrange(start as int, i as int));
    }
    r
}

/// `v` without leading and trailing white space.
pub fn trim_chars(v: &Vec<char>) -> (r: Vec<char>)
    ensures
        r@ == trim(v@),
{
    let len = v.len();
    let mut i: usize = 0;
    assert(v@.subrange(0, len as int) =~= v@);
    while i < len && is_whitespace(v[i])
        invariant
            i <= len == v.len(),
            trim_start(v@) == trim_start(v@.subrange(i as int, len as int)),
        decreases len - i,
    {
        assert(v@.subrange(i as int, len as int).drop_first() =~= v@.subrange(i + 1, len as int));
        i = i + 1;
    }
    assert(trim_start(v@) == v@.subrange(i as int, len as int));
    let mut j: usize = len;
    while j > i && is_whitespace(v[j - 1])
        invariant
            i <= j <= len == v.len(),
            trim(v@) == trim_end(v@.subrange(i as int, j as int)),
        decreases j,
    {
        assert(v@.subrange(i as int, j as int).drop_last() =~= v@.subrange(i as int, j - 1));
        j = j - 1;
    }
    copy_range(v, i, j)
}

/// The value of a string of decimal digits.
pub open spec fn digits_value(s: Seq<char>) -> nat
    decreases s.len(),
{
    if s.len() == 0 {
        0
    } else {
        digits_value(s.drop_last()) * 10 + digit_value(s.last())
    }
}

/// The ASCII digit for `d` (`d < 10`).
pub open spec fn digit_char(d: nat) -> char {
    (d + 48) as char
}

/// The decimal text of `n`, without leading zeros.
pub open spec fn nat_text(n: nat) -> Seq<char>
    decreases n,
{
    if n < 10 {
        seq![digit_char(n)]
    } else {
        nat_text(n / 10).push(digit_char(n % 10))
    }
}

pub proof fn lemma_digit_char(d: nat)
    requires
        d < 10,
    ensures
        is_digit_char(digit_char(d)),
        digit_value(digit_char(d)) == d,
        digit_char(d) != '.',
{
}

pub proof fn lemma_digit_char_of_value(c: char)
    requires
        is_digit_char(c),
    ensures
        digit_char(digit_value(c)) == c,
        digit_value(c) < 10,
{
}

/// Appends the decimal text of `n`.
pub fn push_decimal(s: &mut String, n: u64)
    ensures
        final(s)@ == old(s)@ + nat_text(n as nat),
    decreases n,
{
    if n >= 10 {
        push_decimal(s, n / 10);
    }
    let d = (n % 10) as u8;
    proof {
        lemma_digit_char((n % 10) as nat);
    }
    push_char(s, (d + 48) as char);
    assert(s@ =~= old(s)@ + nat_text(n as nat));
}

/// A string of digits as `nat_text` writes it: not empty, and no leading
/// zero unless it is `0`.
pub open spec fn canonical_digits(t: Seq<char>) -> bool {
    &&& t.len() >= 1
    &&& forall|k: int| 0 <= k < t.len() ==> is_digit_char(#[trigger] t[k])
    &&& (t.len() == 1 || t[0] != '0')
}

/// `nat_text(n)` is a canonical digit string worth `n`, of at most as many
/// digits as `n` needs.
pub proof fn lemma_nat_text(n: nat)
    ensures
        canonical_digits(nat_text(n)),
        digits_value(nat_text(n)) == n,
        n < 10 ==> nat_text(n).len() == 1,
        n < 100 ==> nat_text(n).len() <= 2,
        n < 1000 ==> nat_text(n).len() <= 3,
        n >= 10 ==> nat_text(n).len() >= 2,
    decreases n,
{
    if n < 10 {
        lemma_digit_char(n);
        let t = nat_text(n);
        assert(t == seq![digit_char(n)]);
        assert(t.drop_last() =~= seq![]);
        assert(digits_value(t.drop_last()) == 0);
        assert(t.last() == digit_char(n));
        assert(digits_value(t) == n);
        assert(is_digit_char(t[0]));
        assert(canonical_digits(t));
    } else {
        lemma_nat_text(n / 10);
        lemma_digit_char(n % 10);
        let t = nat_text(n);
        let h = nat_text(n / 10);
        assert(t == h.push(digit_char(n % 10)));
        assert(t.drop_last() =~= h);
        assert(t.last() == digit_char(n % 10));
        assert(n == (n / 10) * 10 + n % 10);
        assert(digits_value(t) == n);
        assert(t[0] == h[0]);
        if n / 10 < 10 {
            assert(h[0] == digit_char(n / 10));
            lemma_digit_char(n / 10);
            assert(digit_value('0') == 0);
            assert(h[0] != '0');
        }
        assert forall|k: int| 0 <= k < t.len() implies is_digit_char(#[trigger] t[k]) by {
            if k < h.len() {
                assert(t[k] == h[k]);
            }
        }
    }
}

/// A digit string of value zero or more has a value at least its first digit
/// times ten for each further digit; in particular a canonical string of two
/// or more digits is worth at least 10.
proof fn lemma_leading_digit_positive(s: Seq<char>)
    requires
        s.len() >= 1,
        forall|k: int| 0 <= k < s.len() ==> is_digit_char(#[trigger] s[k]),
        s[0] != '0',
    ensures
        digits_value(s) > 0,
    decreases s.len(),
{
    if s.len() > 1 {
        let d = s.drop_last();
        assert(d[0] == s[0]);
        assert forall|k: int| 0 <= k < d.len() implies is_digit_char(#[trigger] d[k]) by {
            assert(d[k] == s[k]);
        }
        lemma_leading_digit_positive(d);
    } else {
        assert(s.drop_last() =~= seq![]);
    }
}

/// A canonical digit string is the text of its value.
pub proof fn lemma_text_of_canonical(t: Seq<char>)
    requires
        canonical_digits(t),
    ensures
        nat_text(digits_value(t)) == t,
    decreases t.len(),
{
    let v = digits_value(t);
    if t.len() == 1 {
        assert(t.drop_last() =~= seq![]);
        lemma_digit_char_of_value(t[0]);
        assert(t.last() == t[0]);
        assert(digits_value(t.drop_last()) == 0);
        assert(v == digit_value(t[0]));
        assert(nat_text(v) == seq![digit_char(v)]);
        assert(nat_text(v) =~= t);
    } else {
        let d = t.drop_last();
        assert(d[0] == t[0]);
        assert forall|k: int| 0 <= k < d.len() implies is_digit_char(#[trigger] d[k]) by {
            assert(d[k] == t[k]);
        }
        lemma_leading_digit_positive(d);
        lemma_text_of_canonical(d);
        let c = t.last();
        assert(is_digit_char(c));
        lemma_digit_char_of_value(c);
        let dv = digits_value(d);
        assert(v == dv * 10 + digit_value(c));
        assert(v / 10 == dv && v % 10 == digit_value(c)) by {
            vstd::arithmetic::div_mod::lemma_fundamental_div_mod_converse(
                v as int,
                10,
                dv as int,
                digit_value(c) as int,
            );
        }
        assert(dv * 10 >= 10) by (nonlinear_arith)
            requires
                dv > 0,
        ;
        assert(v >= 10);
        assert(nat_text(v) == nat_text(v / 10).push(digit_char(v % 10)));
        assert(t =~= d.push(c));
        assert(nat_text(v / 10) == d);
        assert(digit_char(v % 10) == c);
        assert(nat_text(v) == d.push(c));
    }
}

/// The pieces of `s` between occurrences of `sep` (an empty text is one
/// empty piece).
pub open spec fn split_at_char(s: Seq<char>, sep: char) -> Seq<Seq<char>>
    decreases s.len(),
{
    if s.len() == 0 {
        seq![seq![]]
    } else {
        let f = split_at_char(s.drop_last(), sep);
        if s.last() == sep {
            f.push(seq![])
        } else {
            f.drop_last().push(f.last().push(s.last()))
        }
    }
}

/// The views of a vector of character vectors.
pub open spec fn views_of(v: Seq<Vec<char>>) -> Seq<Seq<char>> {
    v.map_values(|x: Vec<char>| x@)
}

/// Splits `v` at every `sep`.
pub fn split_chars(v: &Vec<char>, sep: char) -> (r: Vec<Vec<char>>)
    ensures
        views_of(r@) == split_at_char(v@, sep),
{
    let len = v.len();
    let mut done: Vec<Vec<char>> = Vec::new();
    let mut current: Vec<char> = Vec::new();
    let mut i: usize = 0;
    assert(v@.subrange(0, 0) =~= seq![]);
    assert(views_of(done@).push(current@) =~= seq![seq![]]);
    while i < len
        invariant
            i <= len == v.len(),
            views_of(done@).push(current@) == split_at_char(v@.subrange(0, i as int), sep),
        decreases len - i,
    {
        let c = v[i];
        let ghost prefix = v@.subrange(0, i + 1);
        assert(prefix.drop_last() =~= v@.subrange(0, i as int));
        assert(prefix.last() == c);
        if c == sep {
            let finished = current;
            current = Vec::new();
            done.push(finished);
            assert(views_of(done@).push(current@) =~= split_at_char(prefix, sep));
        } else {
            current.push(c);
            assert(views_of(done@).push(current@) =~= split_at_char(prefix, sep));
        }
        i = i + 1;
    }
    assert(v@.subrange(0, len as int) =~= v@);
    done.push(current);
    assert(views_of(done@) =~= split_at_char(v@, sep));
    done
}

/// `pat` occurs in `s` at index `i`.
pub open spec fn occurs_at(s: Seq<char>, pat: Seq<char>, i: int) -> bool {
    0 <= i && i + pat.len() <= s.len() && s.subrange(i, i + pat.len()) == pat
}

/// The first index at which `pat` occurs in `s` (`str::find`).
pub open spec fn first_occurrence(s: Seq<char>, pat: Seq<char>) -> Option<int> {
    if exists|i: int| occurs_at(s, pat, i) {
        Some(
            choose|i: int|
                occurs_at(s, pat, i) && forall|j: int| 0 <= j < i ==> !occurs_at(s, pat, j),
        )
    } else {
        None
    }
}

fn occurs_here(s: &Vec<char>, pat: &Vec<char>, i: usize) -> (b: bool)
    ensures
        b == occurs_at(s@, pat@, i as int),
{
    if pat.len() > s.len() || i > s.len() - pat.len() {
        return false;
    }
    let mut k: usize = 0;
    while k < pat.len()
        invariant
            i + pat.len() <= s.len(),
            k <= pat.len(),
            forall|j: int| 0 <= j < k ==> s@[i + j] == pat@[j],
        decreases pat.len() - k,
    {
        if s[i + k] != pat[k] {
            assert(s@.subrange(i as int, i + pat.len())[k as int] != pat@[k as int]);
            return false;
        }
        k = k + 1;
    }
    assert(s@.subrange(i as int, i + pat.len()) =~= pat@);
    true
}

/// The first index at which `pat` occurs in `s`.
pub fn find_first(s: &Vec<char>, pat: &Vec<char>) -> (r: Option<usize>)
    ensures
        match r {
            Some(i) => first_occurrence(s@, pat@) == Some(i as int) && occurs_at(s@, pat@, i as int),
            None => first_occurrence(s@, pat@) is None,
        },
{
    let mut i: usize = 0;
    loop
        invariant
            i <= s.len(),
            forall|j: int| 0 <= j < i ==> !occurs_at(s@, pat@, j),
        ensures
            forall|j: int| 0 <= j <= s.len() ==> !occurs_at(s@, pat@, j),
        decreases s.len() - i,
    {
        if occurs_here(s, pat, i) {
            proof {
                let w = choose|w: int|
                    occurs_at(s@, pat@, w) && forall|j: int| 0 <= j < w ==> !occurs_at(s@, pat@, j);
                assert(occurs_at(s@, pat@, i as int) && forall|j: int|
                    0 <= j < i ==> !occurs_at(s@, pat@, j));
                if w < i {
                } else if w > i {
                }
                assert(w == i);
            }
            return Some(i);
        }
        if i == s.len() {
            break;
        }
        i = i + 1;
    }
    assert forall|j: int| !occurs_at(s@, pat@, j) by {
        if occurs_at(s@, pat@, j) {
            assert(j <= s.len());
        }
    }
    None
}

/// `v` without its leading white space.
pub fn trim_start_chars(v: &Vec<char>) -> (r: Vec<char>)
    ensures
        r@ == trim_start(v@),
{
    let len = v.len();
    let mut i: usize = 0;
    assert(v@.subrange(0, len as int) =~= v@);
    while i < len && is_whitespace(v[i])
        invariant
            i <= len == v.len(),
            trim_start(v@) == trim_start(v@.subrange(i as int, len as int)),
        decreases len - i,
    {
        assert(v@.subrange(i as int, len as int).drop_first() =~= v@.subrange(i + 1, len as int));
        i = i + 1;
    }
    copy_range(v, i, len)
}

/// `n / d` rounded to the nearest integer, halves to the even one.
pub open spec fn div_round_half_even(n: nat, d: nat) -> nat {
    let q = n / d;
    let r = n % d;
    if 2 * r > d || (2 * r == d && q % 2 == 1) {
        q + 1
    } else {
        q
    }
}

/// The text of `h / 100` with exactly two decimals.
pub open spec fn two_decimals_text(h: nat) -> Seq<char> {
    nat_text(h / 100) + seq!['.', digit_char((h % 100) / 10), digit_char(h % 10)]
}

/// The text of `t / 10` with exactly one decimal.
pub open spec fn one_decimal_text(t: nat) -> Seq<char> {
    nat_text(t / 10) + seq!['.', digit_char(t % 10)]
}

/// A number of nanoseconds written as milliseconds with two decimals
/// (`8210000` is `8.21`), rounded to the nearest hundredth, halves to even.
pub open spec fn millis_text(ns: nat) -> Seq<char> {
    two_decimals_text(div_round_half_even(ns, 10_000))
}

/// `n / d` rounded to the nearest integer, halves to the even one.
pub fn div_round_half_even_exec(n: u64, d: u64) -> (r: u64)
    requires
        d > 0,
    ensures
        r == div_round_half_even(n as nat, d as nat),
{
    let q = n / d;
    let rem = n % d;
    let twice: u128 = 2 * (rem as u128);
    assert(q <= n) by {
        vstd::arithmetic::div_mod::lemma_div_is_ordered_by_denominator(n as int, 1, d as int);
    }
    if twice > d as u128 || (twice == d as u128 && q % 2 == 1) {
        assert(q < u64::MAX) by {
            vstd::arithmetic::div_mod::lemma_fundamental_div_mod(n as int, d as int);
            if d >= 2 {
                assert(q * d >= q * 2) by (nonlinear_arith)
                    requires
                        d >= 2,
                ;
            } else {
                assert(rem == 0);
            }
        }
        q + 1
    } else {
        q
    }
}

/// Appends the text of `h / 100` with two decimals.
pub fn push_two_decimals(s: &mut String, h: u64)
    ensures
        final(s)@ == old(s)@ + two_decimals_text(h as nat),
{
    push_decimal(s, h / 100);
    push_char(s, '.');
    let tens = ((h % 100) / 10) as u8;
    let ones = (h % 10) as u8;
    proof {
        lemma_digit_char(((h % 100) / 10) as nat);
        lemma_digit_char((h % 10) as nat);
    }
    push_char(s, (tens + 48) as char);
    push_char(s, (ones + 48) as char);
    assert(s@ =~= old(s)@ + two_decimals_text(h as nat));
}

/// Appends the text of `t / 10` with one decimal.
pub fn push_one_decimal(s: &mut String, t: u64)
    ensures
        final(s)@ == old(s)@ + one_decimal_text(t as nat),
{
    push_decimal(s, t / 10);
    push_char(s, '.');
    let ones = (t % 10) as u8;
    proof {
        lemma_digit_char((t % 10) as nat);
    }
    push_char(s, (ones + 48) as char);
    assert(s@ =~= old(s)@ + one_decimal_text(t as nat));
}

/// Appends a latency in nanoseconds as milliseconds with two decimals.
pub fn push_millis(s: &mut String, ns: u64)
    ensures
        final(s)@ == old(s)@ + millis_text(ns as nat),
{
    let h = div_round_half_even_exec(ns, 10_000);
    push_two_decimals(s, h);
}

/// The text of an optional string.
pub open spec fn text_of(s: Option<&str>) -> Option<Seq<char>> {
    match s {
        Some(t) => Some(t@),
        None => None,
    }
}

} // verus!

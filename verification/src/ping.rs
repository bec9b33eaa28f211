//! Ping results and the latency that a `ping` run reports.
use vstd::prelude::*;
use vstd::string::*;

use crate::decimal::{
    decimal_mantissa, decimal_scale, dot_count, is_numeric_char, lemma_mantissa_with_dot,
    lemma_no_dots, numeric_len, numeric_prefix_len, pow10, read_decimal, scaled_value,
};
use crate::duration::lemma_numeric_len_of_number;
use crate::text::{
    chars_of, copy_range, digit_value, digits_value, find_first, first_occurrence, is_digit_char,
    is_whitespace_char, occurs_at, split_at_char, split_chars, trim_start, trim_start_chars, views_of,
};

verus! {

/// Whether a check got an answer in time.
#[derive(Debug, Clone, Copy, PartialEq, Eq, Structural)]
pub enum PingStatus {
    Success,
    Timeout,
}

/// The CSV text of a status: `ok` or `timeout`.
pub open spec fn status_text(ok: bool) -> Seq<char> {
    if ok {
        "ok"@
    } else {
        "timeout"@
    }
}

impl PingStatus {
    /// The CSV text of the status.
    pub fn as_csv_value(self) -> (s: &'static str)
        ensures
            s@ == status_text(self == PingStatus::Success),
    {
        match self {
            PingStatus::Success => "ok",
            PingStatus::Timeout => "timeout",
        }
    }
}

/// The outcome of one ping: its round-trip time in nanoseconds when it was answered.
#[derive(Debug, Clone, Copy, PartialEq, Eq, Structural)]
pub struct PingResult {
    pub latency_ns: Option<u64>,
    pub status: PingStatus,
}

impl PingResult {
    /// A ping that got no answer.
    pub fn timeout() -> (r: Self)
        ensures
            r == (PingResult { latency_ns: None, status: PingStatus::Timeout }),
    {
        PingResult { latency_ns: None, status: PingStatus::Timeout }
    }

    /// A ping answered after `latency_ns` nanoseconds.
    pub fn ok(latency_ns: u64) -> (r: Self)
        ensures
            r == (PingResult { latency_ns: Some(latency_ns), status: PingStatus::Success }),
    {
        PingResult { latency_ns: Some(latency_ns), status: PingStatus::Success }
    }
}

/// Nanoseconds in a millisecond.
pub const NANOS_PER_MILLI: u128 = 1_000_000;

/// The latency one line of `ping` output reports, in nanoseconds: the
/// decimal number of milliseconds after the first `time=` of the line
/// (white space after `=` is skipped), rounded down to whole nanoseconds.
/// `None` when the line has no `time=`, no readable number after it, or a
/// latency beyond `u64::MAX` nanoseconds.
pub open spec fn spec_latency_from_line(line: Seq<char>) -> Option<nat> {
    match first_occurrence(line, "time="@) {
        None => None,
        Some(i) => {
            let value = trim_start(line.subrange(i + "time="@.len(), line.len() as int));
            let n = numeric_len(value);
            let num = value.subrange(0, n as int);
            if n == 0 || num == seq!['.'] || dot_count(num) > 1 {
                None
            } else if scaled_value(num, NANOS_PER_MILLI as nat) <= u64::MAX {
                Some(scaled_value(num, NANOS_PER_MILLI as nat))
            } else {
                None
            }
        },
    }
}

/// The first latency reported by any of the lines, in order.
pub open spec fn first_latency(lines: Seq<Seq<char>>) -> Option<nat>
    decreases lines.len(),
{
    if lines.len() == 0 {
        None
    } else {
        match spec_latency_from_line(lines[0]) {
            Some(v) => Some(v),
            None => first_latency(lines.drop_first()),
        }
    }
}

/// The latency a whole `ping` output reports: that of its first line that reports one.
pub open spec fn spec_parse_latency(output: Seq<char>) -> Option<nat> {
    first_latency(split_at_char(output, '\n'))
}

/// The latency one line reports.
#[verifier::rlimit(30)]
pub fn parse_latency_from_line(line: &Vec<char>) -> (r: Option<u64>)
    ensures
        match r {
            Some(v) => spec_latency_from_line(line@) == Some(v as nat),
            None => spec_latency_from_line(line@) is None,
        },
{
    let marker = chars_of("time=");
    let start = match find_first(line, &marker) {
        None => {
            return None;
        },
        Some(i) => i,
    };
    assert(occurs_at(line@, marker@, start as int));
    assert(start + marker.len() <= line.len());
    let rest = copy_range(line, start + marker.len(), line.len());
    let value = trim_start_chars(&rest);
    let n = numeric_prefix_len(&value);
    let ghost num = value@.subrange(0, n as int);
    assert(first_occurrence(line@, "time="@) == Some(start as int));
    assert(value@ == trim_start(line@.subrange(start + "time="@.len(), line@.len() as int)));
    assert(n == numeric_len(value@));
    if n == 0 {
        return None;
    }
    if n == 1 && value[0] == '.' {
        assert(value@.subrange(0, 1) =~= seq!['.']);
        return None;
    }
    assert(value@.subrange(0, n as int) != seq!['.']) by {
        if value@.subrange(0, n as int) == seq!['.'] {
            assert(value@.subrange(0, n as int).len() == 1);
            assert(value@.subrange(0, n as int)[0] == value@[0]);
        }
    }
    let read = read_decimal(&value, n, NANOS_PER_MILLI);
    if !read.valid {
        return None;
    }
    match read.scaled {
        Some(v) => {
            if v <= u64::MAX as u128 {
                Some(v as u64)
            } else {
                None
            }
        },
        None => None,
    }
}

/// The latency a `ping` output reports, in nanoseconds.
pub fn parse_latency_ms(output: &str) -> (r: Option<u64>)
    ensures
        match r {
            Some(v) => spec_parse_latency(output@) == Some(v as nat),
            None => spec_parse_latency(output@) is None,
        },
{
    let chars = chars_of(output);
    let lines = split_chars(&chars, '\n');
    let ghost all = views_of(lines@);
    let mut k: usize = 0;
    assert(all.skip(0) =~= all);
    while k < lines.len()
        invariant
            k <= lines.len(),
            all == views_of(lines@),
            all == split_at_char(output@, '\n'),
            first_latency(all) == first_latency(all.skip(k as int)),
        decreases lines.len() - k,
    {
        let ghost rest = all.skip(k as int);
        assert(rest[0] == lines@[k as int]@);
        assert(rest.drop_first() =~= all.skip(k + 1));
        match parse_latency_from_line(&lines[k]) {
            Some(v) => {
                return Some(v);
            },
            None => {},
        }
        k = k + 1;
    }
    assert(all.skip(k as int) =~= seq![]);
    None
}

/// The ping result for one run of `ping`: answered when the command
/// succeeded and its output reports a latency.
pub fn ping_result_from_output(succeeded: bool, stdout: &str) -> (r: PingResult)
    ensures
        r == if succeeded && spec_parse_latency(stdout@) is Some {
            PingResult {
                latency_ns: Some(spec_parse_latency(stdout@)->Some_0 as u64),
                status: PingStatus::Success,
            }
        } else {
            PingResult { latency_ns: None, status: PingStatus::Timeout }
        },
{
    if !succeeded {
        return PingResult::timeout();
    }
    match parse_latency_ms(stdout) {
        Some(v) => PingResult::ok(v),
        None => PingResult::timeout(),
    }
}

/// The system the `ping` command runs on; its options differ.
#[derive(Debug, Clone, Copy, PartialEq, Eq, Structural)]
pub enum Platform {
    Linux,
    MacOs,
    Other,
}

/// The arguments for one ping of `host` on the given platform. Linux takes
/// the reply timeout in seconds, macOS in milliseconds.
pub open spec fn spec_ping_args(host: Seq<char>, platform: Platform) -> Seq<Seq<char>> {
    match platform {
        Platform::Linux => seq!["-c"@, "1"@, "-n"@, "-W"@, "1"@, host],
        Platform::MacOs => seq!["-c"@, "1"@, "-n"@, "-W"@, "1000"@, host],
        Platform::Other => seq!["-c"@, "1"@, host],
    }
}

/// The arguments for one ping of `host`.
pub fn ping_args(host: &str, platform: Platform) -> (r: Vec<String>)
    ensures
        r@.map_values(|s: String| s@) == spec_ping_args(host@, platform),
{
    let mut r: Vec<String> = Vec::new();
    r.push("-c".to_owned());
    r.push("1".to_owned());
    match platform {
        Platform::Linux => {
            r.push("-n".to_owned());
            r.push("-W".to_owned());
            r.push("1".to_owned());
        },
        Platform::MacOs => {
            r.push("-n".to_owned());
            r.push("-W".to_owned());
            r.push("1000".to_owned());
        },
        Platform::Other => {},
    }
    r.push(host.to_owned());
    assert(r@.map_values(|s: String| s@) =~= spec_ping_args(host@, platform));
    r
}


// ---------------------------------------------------------------------------
// Laws.
// ---------------------------------------------------------------------------

/// Digits read as a decimal have the value their digits give them.
proof fn lemma_mantissa_of_digits(a: Seq<char>)
    requires
        forall|k: int| 0 <= k < a.len() ==> is_digit_char(#[trigger] a[k]),
    ensures
        decimal_mantissa(a) == digits_value(a),
    decreases a.len(),
{
    if a.len() > 0 {
        let b = a.drop_last();
        assert forall|k: int| 0 <= k < b.len() implies is_digit_char(#[trigger] b[k]) by {
            assert(b[k] == a[k]);
        }
        assert(is_digit_char(a[a.len() - 1]));
        lemma_mantissa_of_digits(b);
    }
}

/// The first `time=` of a line is the one after `pre` when no `time=`
/// starts inside `pre`.
proof fn lemma_marker_position(pre: Seq<char>, rest: Seq<char>)
    requires
        forall|i: int| 0 <= i < pre.len() ==> !occurs_at(pre + "time="@, "time="@, i),
    ensures
        first_occurrence(pre + "time="@ + rest, "time="@) == Some(pre.len() as int),
{
    reveal_strlit("time=");
    let m = "time="@;
    let line = pre + m + rest;
    let k = pre.len() as int;
    assert(line.subrange(k, k + m.len()) =~= m);
    assert(occurs_at(line, m, k));
    assert forall|j: int| 0 <= j < k implies !occurs_at(line, m, j) by {
        if occurs_at(line, m, j) {
            assert(line.subrange(j, j + m.len()) =~= (pre + m).subrange(j, j + m.len()));
            assert(occurs_at(pre + m, m, j));
        }
    }
    assert(exists|i: int| occurs_at(line, m, i));
    let c = choose|i: int|
        occurs_at(line, m, i) && forall|j: int| 0 <= j < i ==> !occurs_at(line, m, j);
    assert(occurs_at(line, m, k) && forall|j: int| 0 <= j < k ==> !occurs_at(line, m, j));
    assert(occurs_at(line, m, c) && forall|j: int| 0 <= j < c ==> !occurs_at(line, m, j));
    assert(c == k) by {
        if c < k {
            assert(!occurs_at(line, m, c));
        }
        if c > k {
            assert(!occurs_at(line, m, k));
        }
    }
}

/// Text that starts with a digit or a dot has no white space to trim.
proof fn lemma_trim_start_unchanged(t: Seq<char>)
    requires
        t.len() > 0,
        is_numeric_char(t[0]),
    ensures
        trim_start(t) == t,
{
    assert(!is_whitespace_char(t[0]));
}

/// What follows the first `time=` of `pre + "time=" + num + tail`, read as
/// the line's latency.
#[verifier::rlimit(50)]
proof fn lemma_latency_of_number(pre: Seq<char>, num: Seq<char>, tail: Seq<char>)
    requires
        forall|i: int| 0 <= i < pre.len() ==> !occurs_at(pre + "time="@, "time="@, i),
        num.len() > 0,
        forall|k: int| 0 <= k < num.len() ==> is_numeric_char(#[trigger] num[k]),
        tail.len() == 0 || !is_numeric_char(tail[0]),
    ensures
        spec_latency_from_line(pre + "time="@ + num + tail) == if num == seq!['.'] || dot_count(num)
            > 1 {
            None
        } else if scaled_value(num, NANOS_PER_MILLI as nat) <= u64::MAX {
            Some(scaled_value(num, NANOS_PER_MILLI as nat))
        } else {
            None
        },
{
    reveal_strlit("time=");
    let line = pre + "time="@ + num + tail;
    assert(line == pre + "time="@ + (num + tail));
    lemma_marker_position(pre, num + tail);
    let i = pre.len() as int;
    let after = line.subrange(i + "time="@.len(), line.len() as int);
    assert(after =~= num + tail);
    assert(after[0] == num[0]);
    assert(is_numeric_char(num[0]));
    lemma_trim_start_unchanged(after);
    lemma_numeric_len_of_number(num, tail);
    assert(after.subrange(0, num.len() as int) =~= num);
}

/// A line with `time=` and a whole number of milliseconds, such as
/// `time=123 ms` (how Linux writes latencies of 100 ms and more), gives
/// that many milliseconds in nanoseconds, when it fits in `u64`; `pre` is
/// the text before the first `time=`.
pub proof fn law_latency_whole_millis(pre: Seq<char>, digits: Seq<char>, tail: Seq<char>)
    requires
        forall|i: int| 0 <= i < pre.len() ==> !occurs_at(pre + "time="@, "time="@, i),
        digits.len() > 0,
        forall|k: int| 0 <= k < digits.len() ==> is_digit_char(#[trigger] digits[k]),
        tail.len() == 0 || !(is_digit_char(tail[0]) || tail[0] == '.'),
    ensures
        spec_latency_from_line(pre + "time="@ + digits + tail) == if digits_value(digits)
            * 1_000_000 <= u64::MAX {
            Some(digits_value(digits) * 1_000_000)
        } else {
            None
        },
{
    assert forall|k: int| 0 <= k < digits.len() implies is_numeric_char(#[trigger] digits[k]) by {
        assert(is_digit_char(digits[k]));
    }
    lemma_latency_of_number(pre, digits, tail);
    lemma_no_dots(digits);
    lemma_mantissa_of_digits(digits);
    assert(digits != seq!['.']) by {
        assert(is_digit_char(digits[0]));
    }
    assert(pow10(0) == 1);
    let v = digits_value(digits);
    assert((v * 1_000_000) / 1 == v * 1_000_000);
}

/// A line with `time=` and a decimal number of milliseconds, such as
/// `time=8.21 ms`, gives that number in nanoseconds, rounded down, when it
/// fits in `u64`: `whole.frac` milliseconds are
/// `(whole * 10^|frac| + frac) * 10^6 / 10^|frac|` nanoseconds.
pub proof fn law_latency_decimal_millis(
    pre: Seq<char>,
    whole: Seq<char>,
    frac: Seq<char>,
    tail: Seq<char>,
)
    requires
        forall|i: int| 0 <= i < pre.len() ==> !occurs_at(pre + "time="@, "time="@, i),
        whole.len() + frac.len() > 0,
        forall|k: int| 0 <= k < whole.len() ==> is_digit_char(#[trigger] whole[k]),
        forall|k: int| 0 <= k < frac.len() ==> is_digit_char(#[trigger] frac[k]),
        tail.len() == 0 || !(is_digit_char(tail[0]) || tail[0] == '.'),
    ensures
        ({
            let ns = (digits_value(whole) * pow10(frac.len()) + digits_value(frac)) * 1_000_000
                / pow10(frac.len());
            spec_latency_from_line(pre + "time="@ + whole + seq!['.'] + frac + tail) == if ns
                <= u64::MAX {
                Some(ns)
            } else {
                None
            }
        }),
{
    let num = whole + seq!['.'] + frac;
    assert forall|k: int| 0 <= k < num.len() implies is_numeric_char(#[trigger] num[k]) by {
        if k < whole.len() {
            assert(num[k] == whole[k]);
        } else if k > whole.len() {
            assert(num[k] == frac[k - whole.len() - 1]);
        }
    }
    assert(pre + "time="@ + whole + seq!['.'] + frac + tail == pre + "time="@ + num + tail);
    lemma_latency_of_number(pre, num, tail);
    lemma_mantissa_with_dot(whole, frac);
    lemma_mantissa_of_digits(whole);
    lemma_mantissa_of_digits(frac);
    assert(num.len() >= 2);
}

} // verus!

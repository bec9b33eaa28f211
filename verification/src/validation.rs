//! IPv4 addresses given on the command line.
//!
//! An address is accepted in the dotted-decimal form that `Ipv4Addr::from_str`
//! accepts: four fields separated by `.`, each of one to three decimal digits,
//! without a leading zero unless the field is `0`, and at most 255.
use vstd::prelude::*;
use vstd::string::*;

use crate::text::{
    canonical_digits, chars_of, digits_value, is_digit_char, lemma_nat_text,
    lemma_text_of_canonical, nat_text, push_char, push_decimal,
};

verus! {

/// An IPv4 address: its four octets, most significant first.
#[derive(Debug, Clone, Copy, PartialEq, Eq, Structural)]
pub struct Ipv4Address(pub u8, pub u8, pub u8, pub u8);

/// The dotted-decimal text of an address.
pub open spec fn ipv4_text(a: Ipv4Address) -> Seq<char> {
    nat_text(a.0 as nat) + seq!['.'] + nat_text(a.1 as nat) + seq!['.'] + nat_text(a.2 as nat)
        + seq!['.'] + nat_text(a.3 as nat)
}

/// The fields of `s` between dots (an empty text has one empty field).
pub open spec fn dot_fields(s: Seq<char>) -> Seq<Seq<char>>
    decreases s.len(),
{
    if s.len() == 0 {
        seq![seq![]]
    } else {
        let f = dot_fields(s.drop_last());
        if s.last() == '.' {
            f.push(seq![])
        } else {
            f.drop_last().push(f.last().push(s.last()))
        }
    }
}

/// A field that reads as an octet: one to three digits, no leading zero
/// unless it is `0`, at most 255.
pub open spec fn octet_ok(t: Seq<char>) -> bool {
    &&& 1 <= t.len() <= 3
    &&& forall|k: int| 0 <= k < t.len() ==> is_digit_char(#[trigger] t[k])
    &&& (t.len() == 1 || t[0] != '0')
    &&& digits_value(t) <= 255
}

/// How an address is read: exactly four fields, each an octet.
pub open spec fn spec_parse_ipv4(s: Seq<char>) -> Option<Ipv4Address> {
    let f = dot_fields(s);
    if f.len() == 4 && octet_ok(f[0]) && octet_ok(f[1]) && octet_ok(f[2]) && octet_ok(f[3]) {
        Some(
            Ipv4Address(
                digits_value(f[0]) as u8,
                digits_value(f[1]) as u8,
                digits_value(f[2]) as u8,
                digits_value(f[3]) as u8,
            ),
        )
    } else {
        None
    }
}

/// The message for a text that is not an IPv4 address.
pub open spec fn invalid_ipv4_text(input: Seq<char>) -> Seq<char> {
    "Invalid IPv4 address '"@ + input + "'. Please provide a value like 192.168.1.1."@
}

impl Ipv4Address {
    /// The address with the given octets.
    pub fn new(a: u8, b: u8, c: u8, d: u8) -> (r: Ipv4Address)
        ensures
            r == Ipv4Address(a, b, c, d),
    {
        Ipv4Address(a, b, c, d)
    }

    /// The four octets, most significant first.
    pub fn octets(&self) -> (r: [u8; 4])
        ensures
            r@ == seq![self.0, self.1, self.2, self.3],
    {
        let r = [self.0, self.1, self.2, self.3];
        assert(r@ =~= seq![self.0, self.1, self.2, self.3]);
        r
    }

    /// The dotted-decimal text, such as `192.168.1.1`.
    pub fn to_text(&self) -> (s: String)
        ensures
            s@ == ipv4_text(*self),
    {
        let mut s = String::new();
        push_decimal(&mut s, self.0 as u64);
        push_char(&mut s, '.');
        push_decimal(&mut s, self.1 as u64);
        push_char(&mut s, '.');
        push_decimal(&mut s, self.2 as u64);
        push_char(&mut s, '.');
        push_decimal(&mut s, self.3 as u64);
        assert(s@ =~= ipv4_text(*self));
        s
    }
}

/// The octet a field reads as, if it is one.
fn octet_value(t: &Vec<char>) -> (r: Option<u8>)
    ensures
        r == if octet_ok(t@) {
            Some(digits_value(t@) as u8)
        } else {
            None
        },
{
    let len = t.len();
    if len < 1 || len > 3 {
        return None;
    }
    if len > 1 && t[0] == '0' {
        return None;
    }
    let mut value: u32 = 0;
    let mut i: usize = 0;
    while i < len
        invariant
            i <= len == t.len() <= 3,
            forall|k: int| 0 <= k < i ==> is_digit_char(#[trigger] t@[k]),
            value == digits_value(t@.subrange(0, i as int)),
            value < 1000,
        decreases len - i,
    {
        let c = t[i];
        if !('0' <= c && c <= '9') {
            return None;
        }
        assert(t@.subrange(0, i + 1).drop_last() =~= t@.subrange(0, i as int));
        assert(t@.subrange(0, i + 1).last() == c);
        assert(value < 100) by {
            lemma_digits_value_bound(t@.subrange(0, i as int));
        }
        value = value * 10 + ((c as u32) - ('0' as u32));
        i = i + 1;
    }
    assert(t@.subrange(0, len as int) =~= t@);
    if value > 255 {
        return None;
    }
    Some(value as u8)
}

/// A digit string of length `n` is below `10^n`; here, for `n <= 2`.
proof fn lemma_digits_value_bound(s: Seq<char>)
    requires
        s.len() <= 2,
        forall|k: int| 0 <= k < s.len() ==> is_digit_char(#[trigger] s[k]),
    ensures
        s.len() == 0 ==> digits_value(s) == 0,
        s.len() == 1 ==> digits_value(s) < 10,
        s.len() == 2 ==> digits_value(s) < 100,
    decreases s.len(),
{
    if s.len() > 0 {
        assert(is_digit_char(s.last()));
        lemma_digits_value_bound(s.drop_last());
    }
}

/// Reads an IPv4 address such as `192.168.1.1`.
pub fn parse_ipv4_address(input: &str) -> (r: Result<Ipv4Address, String>)
    ensures
        match r {
            Ok(a) => spec_parse_ipv4(input@) == Some(a),
            Err(m) => spec_parse_ipv4(input@) is None && m@ == invalid_ipv4_text(input@),
        },
{
    let chars = chars_of(input);
    let len = chars.len();
    let mut done: Vec<Vec<char>> = Vec::new();
    let mut current: Vec<char> = Vec::new();
    let mut i: usize = 0;
    assert(chars@.subrange(0, 0) =~= seq![]);
    assert(done@.map_values(|v: Vec<char>| v@).push(current@) =~= seq![seq![]]);
    while i < len
        invariant
            i <= len == chars.len(),
            done@.map_values(|v: Vec<char>| v@).push(current@) == dot_fields(
                chars@.subrange(0, i as int),
            ),
        decreases len - i,
    {
        let c = chars[i];
        let ghost prefix = chars@.subrange(0, i + 1);
        assert(prefix.drop_last() =~= chars@.subrange(0, i as int));
        assert(prefix.last() == c);
        if c == '.' {
            let finished = current;
            current = Vec::new();
            done.push(finished);
            assert(done@.map_values(|v: Vec<char>| v@).push(current@) =~= dot_fields(prefix));
        } else {
            current.push(c);
            assert(done@.map_values(|v: Vec<char>| v@).push(current@) =~= dot_fields(prefix));
        }
        i = i + 1;
    }
    assert(chars@.subrange(0, len as int) =~= input@);
    let ghost fields = dot_fields(input@);
    if done.len() != 3 {
        let mut m = "Invalid IPv4 address '".to_owned();
        m.append(input);
        m.append("'. Please provide a value like 192.168.1.1.");
        return Err(m);
    }
    assert(fields[0] == done@[0]@);
    assert(fields[1] == done@[1]@);
    assert(fields[2] == done@[2]@);
    assert(fields[3] == current@);
    let o0 = octet_value(&done[0]);
    let o1 = octet_value(&done[1]);
    let o2 = octet_value(&done[2]);
    let o3 = octet_value(&current);
    match (o0, o1, o2, o3) {
        (Some(a), Some(b), Some(c), Some(d)) => Ok(Ipv4Address(a, b, c, d)),
        _ => {
            let mut m = "Invalid IPv4 address '".to_owned();
            m.append(input);
            m.append("'. Please provide a value like 192.168.1.1.");
            Err(m)
        },
    }
}

// ---------------------------------------------------------------------------
// Laws.
// ---------------------------------------------------------------------------

/// Fields joined back with dots.
pub open spec fn join_with_dots(fs: Seq<Seq<char>>) -> Seq<char>
    decreases fs.len(),
{
    if fs.len() == 0 {
        seq![]
    } else if fs.len() == 1 {
        fs[0]
    } else {
        join_with_dots(fs.drop_last()) + seq!['.'] + fs.last()
    }
}

/// A text without dots.
pub open spec fn dot_free(s: Seq<char>) -> bool {
    forall|k: int| 0 <= k < s.len() ==> #[trigger] s[k] != '.'
}

proof fn lemma_fields_nonempty(s: Seq<char>)
    ensures
        dot_fields(s).len() >= 1,
    decreases s.len(),
{
    if s.len() > 0 {
        lemma_fields_nonempty(s.drop_last());
    }
}

/// Splitting at the dots and joining with dots gives the text back.
proof fn lemma_join_fields(s: Seq<char>)
    ensures
        join_with_dots(dot_fields(s)) == s,
    decreases s.len(),
{
    if s.len() > 0 {
        let p = s.drop_last();
        let f = dot_fields(p);
        lemma_join_fields(p);
        lemma_fields_nonempty(p);
        let g = dot_fields(s);
        if s.last() == '.' {
            assert(g.drop_last() =~= f);
            assert(join_with_dots(g) =~= s);
        } else {
            let last = f.last().push(s.last());
            assert(g.drop_last() =~= f.drop_last());
            assert(g.last() == last);
            if f.len() == 1 {
                assert(g.len() == 1);
                assert(g[0] == last);
                assert(f[0] == p);
                assert(s =~= p.push(s.last()));
                assert(join_with_dots(g) == g[0]);
                assert(join_with_dots(g) =~= s);
            } else {
                let a = join_with_dots(f.drop_last());
                assert(join_with_dots(f) == a + seq!['.'] + f.last());
                assert(g.len() == f.len());
                assert(join_with_dots(g) == join_with_dots(g.drop_last()) + seq!['.'] + g.last());
                assert(join_with_dots(g) == a + seq!['.'] + last);
                assert(s =~= p.push(s.last()));
                assert(a + seq!['.'] + last =~= (a + seq!['.'] + f.last()).push(s.last()));
                assert(join_with_dots(g) =~= s);
            }
        }
    } else {
        assert(dot_fields(s) =~= seq![seq![]]);
    }
}

/// A text without dots is a single field.
proof fn lemma_fields_dot_free(y: Seq<char>)
    requires
        dot_free(y),
    ensures
        dot_fields(y) == seq![y],
    decreases y.len(),
{
    if y.len() > 0 {
        let p = y.drop_last();
        assert(dot_free(p)) by {
            assert forall|k: int| 0 <= k < p.len() implies #[trigger] p[k] != '.' by {
                assert(p[k] == y[k]);
            }
        }
        lemma_fields_dot_free(p);
        assert(y.last() != '.');
        assert(y =~= p.push(y.last()));
        assert(dot_fields(y) =~= seq![y]);
    } else {
        assert(y =~= seq![]);
    }
}

/// A dot followed by a text without dots adds one field.
proof fn lemma_fields_append(x: Seq<char>, y: Seq<char>)
    requires
        dot_free(y),
    ensures
        dot_fields(x + seq!['.'] + y) == dot_fields(x).push(y),
    decreases y.len(),
{
    let s = x + seq!['.'] + y;
    if y.len() == 0 {
        assert(s.drop_last() =~= x);
        assert(s.last() == '.');
        assert(y =~= seq![]);
        assert(dot_fields(x).push(y) =~= dot_fields(x).push(seq![]));
    } else {
        let p = y.drop_last();
        assert(dot_free(p)) by {
            assert forall|k: int| 0 <= k < p.len() implies #[trigger] p[k] != '.' by {
                assert(p[k] == y[k]);
            }
        }
        lemma_fields_append(x, p);
        assert(s.drop_last() =~= x + seq!['.'] + p);
        assert(s.last() == y.last());
        assert(y.last() != '.');
        assert(p.push(y.last()) =~= y);
        assert(dot_fields(s) =~= dot_fields(x).push(y));
    }
}

proof fn lemma_octet_text(n: u8)
    ensures
        octet_ok(nat_text(n as nat)),
        digits_value(nat_text(n as nat)) == n,
        dot_free(nat_text(n as nat)),
{
    lemma_nat_text(n as nat);
    let t = nat_text(n as nat);
    assert forall|k: int| 0 <= k < t.len() implies #[trigger] t[k] != '.' by {
        assert(is_digit_char(t[k]));
    }
}

/// The text of every address reads back as that address.
pub proof fn law_ipv4_text_round_trip(a: Ipv4Address)
    ensures
        spec_parse_ipv4(ipv4_text(a)) == Some(a),
{
    let t0 = nat_text(a.0 as nat);
    let t1 = nat_text(a.1 as nat);
    let t2 = nat_text(a.2 as nat);
    let t3 = nat_text(a.3 as nat);
    lemma_octet_text(a.0);
    lemma_octet_text(a.1);
    lemma_octet_text(a.2);
    lemma_octet_text(a.3);
    lemma_fields_dot_free(t0);
    lemma_fields_append(t0, t1);
    lemma_fields_append(t0 + seq!['.'] + t1, t2);
    lemma_fields_append(t0 + seq!['.'] + t1 + seq!['.'] + t2, t3);
    let f = dot_fields(ipv4_text(a));
    assert(f =~= seq![t0, t1, t2, t3]);
}

/// Every text that reads as an address is that address's text: the
/// accepted form is exactly the canonical dotted-decimal one.
pub proof fn law_ipv4_parse_is_canonical(s: Seq<char>)
    requires
        spec_parse_ipv4(s) is Some,
    ensures
        ipv4_text(spec_parse_ipv4(s)->Some_0) == s,
{
    let f = dot_fields(s);
    let a = spec_parse_ipv4(s)->Some_0;
    assert forall|i: int| 0 <= i < 4 implies nat_text(digits_value(#[trigger] f[i])) == f[i]
        && digits_value(f[i]) <= 255 by {
        assert(octet_ok(f[i]));
        assert(canonical_digits(f[i]));
        lemma_text_of_canonical(f[i]);
    }
    assert(nat_text(a.0 as nat) == f[0]);
    assert(nat_text(a.1 as nat) == f[1]);
    assert(nat_text(a.2 as nat) == f[2]);
    assert(nat_text(a.3 as nat) == f[3]);
    lemma_join_fields(s);
    assert(f.drop_last().drop_last().drop_last() =~= seq![f[0]]);
    assert(join_with_dots(f) == join_with_dots(f.drop_last()) + seq!['.'] + f[3]);
    assert(join_with_dots(f.drop_last()) == join_with_dots(f.drop_last().drop_last()) + seq!['.']
        + f[2]);
    assert(join_with_dots(f.drop_last().drop_last()) == join_with_dots(
        f.drop_last().drop_last().drop_last(),
    ) + seq!['.'] + f[1]);
    assert(ipv4_text(a) =~= s);
}

} // verus!

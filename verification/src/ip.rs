//! Station addresses: a parsed four-octet IPv4 value, its dotted-decimal
//! rendering, and a validating parser for the raw catalog's address strings.

use vstd::prelude::*;

verus! {

use vstd::string::StringExecFns;
use crate::text::dec_digit;
use crate::text::push_u8_dec;
use crate::text::u8_dec;

/// A parsed IPv4 address, one field per octet.
#[derive(Clone, Copy, PartialEq, Eq, Structural, Debug)]
pub struct Ipv4Address {
    pub o0: u8,
    pub o1: u8,
    pub o2: u8,
    pub o3: u8,
}

/// The dotted-decimal rendering of an address.
pub open spec fn ipv4_seq(ip: Ipv4Address) -> Seq<char> {
    u8_dec(ip.o0 as int) + seq!['.'] + u8_dec(ip.o1 as int) + seq!['.'] + u8_dec(
        ip.o2 as int,
    ) + seq!['.'] + u8_dec(ip.o3 as int)
}

impl Ipv4Address {
    /// Renders the address in dotted-decimal form.
    pub fn text(&self) -> (r: String)
        ensures
            r@ == ipv4_seq(*self),
    {
        let mut out = String::new();
        push_u8_dec(&mut out, self.o0);
        out.append(".");
        push_u8_dec(&mut out, self.o1);
        out.append(".");
        push_u8_dec(&mut out, self.o2);
        out.append(".");
        push_u8_dec(&mut out, self.o3);
        proof {
            reveal_strlit(".");
            assert("."@ =~= seq!['.']);
            assert(out@ =~= ipv4_seq(*self));
        }
        out
    }
}

/// The parts of `s` cut at every '.'; there is always at least one part,
/// and separators are not kept.
pub open spec fn split_dots(s: Seq<char>) -> Seq<Seq<char>>
    decreases s.len(),
{
    if s.len() == 0 {
        seq![Seq::empty()]
    } else {
        let rest = split_dots(s.drop_last());
        if s.last() == '.' {
            rest.push(Seq::empty())
        } else {
            rest.update(rest.len() - 1, rest.last().push(s.last()))
        }
    }
}

pub open spec fn is_dec_digit(c: char) -> bool {
    '0' as u32 <= c as u32 && c as u32 <= '9' as u32
}

pub open spec fn digit_val(c: char) -> int {
    c as u32 - '0' as u32
}

/// The numeric value of a run of decimal digits, most significant first.
pub open spec fn octet_val(t: Seq<char>) -> int
    decreases t.len(),
{
    if t.len() == 0 {
        0
    } else {
        octet_val(t.drop_last()) * 10 + digit_val(t.last())
    }
}

/// A well-formed decimal octet: one to three digits, no leading zero,
/// value at most 255.
pub open spec fn valid_octet(t: Seq<char>) -> bool {
    &&& 1 <= t.len() <= 3
    &&& forall|i: int| 0 <= i < t.len() ==> is_dec_digit(#[trigger] t[i])
    &&& t.len() > 1 ==> t[0] != '0'
    &&& octet_val(t) <= 255
}

/// A character sequence is an IPv4 address exactly when it has four
/// '.'-separated parts, each a well-formed decimal octet.
pub open spec fn spec_parse_ipv4(s: Seq<char>) -> Option<Ipv4Address> {
    let parts = split_dots(s);
    if parts.len() == 4 && valid_octet(parts[0]) && valid_octet(parts[1]) && valid_octet(parts[2])
        && valid_octet(parts[3]) {
        Some(
            Ipv4Address {
                o0: octet_val(parts[0]) as u8,
                o1: octet_val(parts[1]) as u8,
                o2: octet_val(parts[2]) as u8,
                o3: octet_val(parts[3]) as u8,
            },
        )
    } else {
        None
    }
}

proof fn lemma_split_dots_at_least_one(s: Seq<char>)
    ensures
        split_dots(s).len() >= 1,
    decreases s.len(),
{
    if s.len() > 0 {
        lemma_split_dots_at_least_one(s.drop_last());
    }
}

proof fn lemma_split_dots_push_dot(x: Seq<char>)
    ensures
        split_dots(x.push('.')) == split_dots(x).push(Seq::empty()),
{
    assert(x.push('.').drop_last() =~= x);
    assert(x.push('.').last() == '.');
}

proof fn lemma_split_dots_extend(x: Seq<char>, y: Seq<char>)
    requires
        forall|i: int| 0 <= i < y.len() ==> y[i] != '.',
    ensures
        split_dots(x + y) == split_dots(x).update(
            split_dots(x).len() - 1,
            split_dots(x).last() + y,
        ),
    decreases y.len(),
{
    lemma_split_dots_at_least_one(x);
    if y.len() == 0 {
        assert(x + y =~= x);
        assert(split_dots(x).last() + y =~= split_dots(x).last());
        assert(split_dots(x).update(split_dots(x).len() - 1, split_dots(x).last()) =~~= split_dots(
            x,
        ));
    } else {
        let y1 = y.drop_last();
        assert(forall|i: int| 0 <= i < y1.len() ==> y1[i] == y[i]);
        lemma_split_dots_extend(x, y1);
        assert((x + y).drop_last() =~= x + y1);
        assert((x + y).last() == y.last());
        assert(y.last() != '.');
        let rest = split_dots(x + y1);
        assert(split_dots(x + y) == rest.update(rest.len() - 1, rest.last().push(y.last())));
        assert(rest.last() == split_dots(x).last() + y1);
        assert((split_dots(x).last() + y1).push(y.last()) =~= split_dots(x).last() + y);
        assert(split_dots(x + y) =~~= split_dots(x).update(
            split_dots(x).len() - 1,
            split_dots(x).last() + y,
        ));
    }
}

proof fn lemma_u8_dec_wf(n: int)
    requires
        0 <= n <= 255,
    ensures
        valid_octet(u8_dec(n)),
        octet_val(u8_dec(n)) == n,
        forall|i: int| 0 <= i < u8_dec(n).len() ==> u8_dec(n)[i] != '.',
{
    let s = u8_dec(n);
    let e = Seq::<char>::empty();
    assert(octet_val(e) == 0);
    if n < 10 {
        assert(s == seq![dec_digit(n)]);
        assert(s.drop_last() =~= e);
        assert(octet_val(s) == octet_val(e) * 10 + digit_val(s.last()));
        assert(digit_val(dec_digit(n)) == n);
        assert(is_dec_digit(dec_digit(n)));
    } else if n < 100 {
        let t1 = seq![dec_digit(n / 10)];
        assert(s == seq![dec_digit(n / 10), dec_digit(n % 10)]);
        assert(t1.drop_last() =~= e);
        assert(octet_val(t1) == octet_val(e) * 10 + digit_val(t1.last()));
        assert(s.drop_last() =~= t1);
        assert(octet_val(s) == octet_val(t1) * 10 + digit_val(s.last()));
        assert(1 <= n / 10 <= 9);
        assert(0 <= n % 10 <= 9);
        assert(digit_val(dec_digit(n / 10)) == n / 10);
        assert(digit_val(dec_digit(n % 10)) == n % 10);
        assert((n / 10) * 10 + n % 10 == n);
        assert(dec_digit(n / 10) != '0');
    } else {
        let t1 = seq![dec_digit(n / 100)];
        let t2 = seq![dec_digit(n / 100), dec_digit((n / 10) % 10)];
        assert(s == seq![dec_digit(n / 100), dec_digit((n / 10) % 10), dec_digit(n % 10)]);
        assert(t1.drop_last() =~= e);
        assert(octet_val(t1) == octet_val(e) * 10 + digit_val(t1.last()));
        assert(t2.drop_last() =~= t1);
        assert(octet_val(t2) == octet_val(t1) * 10 + digit_val(t2.last()));
        assert(s.drop_last() =~= t2);
        assert(octet_val(s) == octet_val(t2) * 10 + digit_val(s.last()));
        assert(1 <= n / 100 <= 2);
        assert(0 <= (n / 10) % 10 <= 9);
        assert(0 <= n % 10 <= 9);
        assert(digit_val(dec_digit(n / 100)) == n / 100);
        assert(digit_val(dec_digit((n / 10) % 10)) == (n / 10) % 10);
        assert(digit_val(dec_digit(n % 10)) == n % 10);
        assert(n / 100 == (n / 10) / 10) by {
            vstd::arithmetic::div_mod::lemma_div_denominator(n, 10, 10);
        }
        assert((n / 100) * 10 + (n / 10) % 10 == n / 10);
        assert((n / 10) * 10 + n % 10 == n);
        assert(dec_digit(n / 100) != '0');
    }
}

/// Every character of a rendered address is a decimal digit or a dot.
pub proof fn lemma_ipv4_seq_chars(ip: Ipv4Address)
    ensures
        forall|k: int|
            0 <= k < ipv4_seq(ip).len() ==> is_dec_digit(#[trigger] ipv4_seq(ip)[k]) || ipv4_seq(
                ip,
            )[k] == '.',
{
    lemma_u8_dec_wf(ip.o0 as int);
    lemma_u8_dec_wf(ip.o1 as int);
    lemma_u8_dec_wf(ip.o2 as int);
    lemma_u8_dec_wf(ip.o3 as int);
    let p0 = u8_dec(ip.o0 as int);
    let p1 = u8_dec(ip.o1 as int);
    let p2 = u8_dec(ip.o2 as int);
    let p3 = u8_dec(ip.o3 as int);
    let s = ipv4_seq(ip);
    assert forall|k: int| 0 <= k < s.len() implies is_dec_digit(s[k]) || s[k] == '.' by {
        let o1: int = p0.len() as int;
        let o2: int = o1 + 1;
        let o3: int = o2 + p1.len();
        let o4: int = o3 + 1;
        let o5: int = o4 + p2.len();
        let o6: int = o5 + 1;
        if k < o1 {
            assert(s[k] == p0[k]);
        } else if k < o2 {
            assert(s[k] == '.');
        } else if k < o3 {
            assert(s[k] == p1[k - o2]);
        } else if k < o4 {
            assert(s[k] == '.');
        } else if k < o5 {
            assert(s[k] == p2[k - o4]);
        } else if k < o6 {
            assert(s[k] == '.');
        } else {
            assert(s[k] == p3[k - o6]);
        }
    }
}

/// Law: rendering an address in dotted-decimal form and parsing the
/// rendering gives the address back; the rendering is a canonical form.
pub proof fn lemma_ipv4_round_trip(ip: Ipv4Address)
    ensures
        spec_parse_ipv4(ipv4_seq(ip)) == Some(ip),
{
    let a = ip.o0 as int;
    let b = ip.o1 as int;
    let c = ip.o2 as int;
    let d = ip.o3 as int;
    lemma_u8_dec_wf(a);
    lemma_u8_dec_wf(b);
    lemma_u8_dec_wf(c);
    lemma_u8_dec_wf(d);
    let p0 = u8_dec(a);
    let p1 = u8_dec(b);
    let p2 = u8_dec(c);
    let p3 = u8_dec(d);
    let dot = seq!['.'];
    let e = Seq::<char>::empty();

    let x0 = p0;
    assert(split_dots(x0) =~~= seq![p0]) by {
        assert(x0 =~= e + p0);
        lemma_split_dots_extend(e, p0);
        assert(split_dots(e) == seq![e]);
        assert(e + p0 =~= p0);
    }
    let x1 = x0 + dot;
    assert(split_dots(x1) =~~= seq![p0, e]) by {
        assert(x1 =~= x0.push('.'));
        lemma_split_dots_push_dot(x0);
    }
    let x2 = x1 + p1;
    assert(split_dots(x2) =~~= seq![p0, p1]) by {
        lemma_split_dots_extend(x1, p1);
        assert(e + p1 =~= p1);
    }
    let x3 = x2 + dot;
    assert(split_dots(x3) =~~= seq![p0, p1, e]) by {
        assert(x3 =~= x2.push('.'));
        lemma_split_dots_push_dot(x2);
    }
    let x4 = x3 + p2;
    assert(split_dots(x4) =~~= seq![p0, p1, p2]) by {
        lemma_split_dots_extend(x3, p2);
        assert(e + p2 =~= p2);
    }
    let x5 = x4 + dot;
    assert(split_dots(x5) =~~= seq![p0, p1, p2, e]) by {
        assert(x5 =~= x4.push('.'));
        lemma_split_dots_push_dot(x4);
    }
    let x6 = x5 + p3;
    assert(split_dots(x6) =~~= seq![p0, p1, p2, p3]) by {
        lemma_split_dots_extend(x5, p3);
        assert(e + p3 =~= p3);
    }
    assert(ipv4_seq(ip) == x6);
    let parts = split_dots(ipv4_seq(ip));
    assert(parts[0] == p0 && parts[1] == p1 && parts[2] == p2 && parts[3] == p3);
    assert(octet_val(parts[0]) as u8 == ip.o0);
    assert(octet_val(parts[1]) as u8 == ip.o1);
    assert(octet_val(parts[2]) as u8 == ip.o2);
    assert(octet_val(parts[3]) as u8 == ip.o3);
}

fn parse_octet(t: &Vec<char>) -> (r: Option<u8>)
    ensures
        r is Some <==> valid_octet(t@),
        r matches Some(v) ==> v as int == octet_val(t@),
{
    if t.len() < 1 || t.len() > 3 {
        return None;
    }
    if t.len() > 1 && t[0] == '0' {
        return None;
    }
    let mut acc: u32 = 0;
    let mut i: usize = 0;
    while i < t.len()
        invariant
            1 <= t@.len() <= 3,
            i <= t@.len(),
            forall|j: int| 0 <= j < i ==> is_dec_digit(#[trigger] t@[j]),
            acc == octet_val(t@.take(i as int)),
            acc <= 999,
            i <= 2 ==> acc <= 99,
            i <= 1 ==> acc <= 9,
            i == 0 ==> acc == 0,
        decreases t@.len() - i,
    {
        let c = t[i];
        let u = c as u32;
        if u < 48 || u > 57 {
            return None;
        }
        proof {
            assert(t@.take(i + 1).drop_last() =~= t@.take(i as int));
            assert(t@.take(i + 1).last() == t@[i as int]);
        }
        acc = acc * 10 + (u - 48);
        i = i + 1;
    }
    proof {
        assert(t@.take(t@.len() as int) =~= t@);
    }
    if acc > 255 {
        return None;
    }
    Some(acc as u8)
}

/// The view of a vector of character vectors, part by part.
pub open spec fn parts_view(ps: Seq<Vec<char>>) -> Seq<Seq<char>> {
    ps.map_values(|v: Vec<char>| v@)
}

/// Parses a dotted-decimal IPv4 address.
pub fn parse_ipv4(s: &Vec<char>) -> (r: Option<Ipv4Address>)
    ensures
        r == spec_parse_ipv4(s@),
{
    let mut done: Vec<Vec<char>> = Vec::new();
    let mut cur: Vec<char> = Vec::new();
    let mut i: usize = 0;
    proof {
        assert(s@.take(0) =~= Seq::<char>::empty());
        assert(split_dots(s@.take(0)) =~~= parts_view(done@).push(cur@));
    }
    while i < s.len()
        invariant
            i <= s@.len(),
            split_dots(s@.take(i as int)) == parts_view(done@).push(cur@),
        decreases s@.len() - i,
    {
        let ghost prev = split_dots(s@.take(i as int));
        proof {
            assert(s@.take(i + 1).drop_last() =~= s@.take(i as int));
            assert(s@.take(i + 1).last() == s@[i as int]);
            assert(prev.len() == done@.len() + 1);
        }
        let c = s[i];
        if c == '.' {
            done.push(cur);
            cur = Vec::new();
            proof {
                assert(split_dots(s@.take(i + 1)) =~~= parts_view(done@).push(cur@));
            }
        } else {
            let ghost old_cur = cur@;
            cur.push(c);
            proof {
                assert(split_dots(s@.take(i + 1)) == prev.update(
                    prev.len() - 1,
                    prev.last().push(s@[i as int]),
                ));
                assert(prev.last() == old_cur);
                assert(split_dots(s@.take(i + 1)) =~~= parts_view(done@).push(cur@));
            }
        }
        i = i + 1;
    }
    proof {
        assert(s@.take(s@.len() as int) =~= s@);
    }
    done.push(cur);
    proof {
        assert(split_dots(s@) =~~= parts_view(done@));
    }
    if done.len() != 4 {
        return None;
    }
    let r0 = parse_octet(&done[0]);
    let r1 = parse_octet(&done[1]);
    let r2 = parse_octet(&done[2]);
    let r3 = parse_octet(&done[3]);
    match (r0, r1, r2, r3) {
        (Some(a), Some(b), Some(c), Some(d)) => Some(Ipv4Address { o0: a, o1: b, o2: c, o3: d }),
        _ => None,
    }
}

} // verus!

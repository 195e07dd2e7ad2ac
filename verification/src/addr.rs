//! Decimal numbers, IPv4 addresses and the rules that admit an address to a port.

use crate::text;
use crate::text_facts;
use vstd::prelude::*;
use vstd::slice::slice_subrange;

verus! {

/// An IPv4 address, octet by octet from the left.
#[derive(Clone, Copy, Debug, PartialEq, Eq, Structural)]
pub struct Ipv4Addr {
    pub a: u8,
    pub b: u8,
    pub c: u8,
    pub d: u8,
}

/// Access of one address to one TCP port.
#[derive(Clone, Copy, Debug, PartialEq, Eq, Structural)]
pub struct Rule {
    pub ip: Ipv4Addr,
    pub port: u16,
}

// ---------------------------------------------------------------------------
// The mathematical meaning
// ---------------------------------------------------------------------------

/// The character of a decimal digit.
pub open spec fn digit(d: nat) -> char {
    (48 + d) as char
}

/// Whether `c` is one of the ten decimal digits.
pub open spec fn is_digit(c: char) -> bool {
    48 <= c as u32 <= 57
}

/// Every character of `s` is a decimal digit.
pub open spec fn all_digits(s: Seq<char>) -> bool {
    forall|i: int| 0 <= i < s.len() ==> is_digit(#[trigger] s[i])
}

/// The decimal notation of `n`, without leading zeros.
pub open spec fn decimal(n: nat) -> Seq<char>
    decreases n,
{
    if n < 10 {
        seq![digit(n)]
    } else {
        decimal(n / 10).push(digit(n % 10))
    }
}

/// The number that the digits of `s` denote.
pub open spec fn value_of(s: Seq<char>) -> int
    decreases s.len(),
{
    if s.len() == 0 {
        0
    } else {
        10 * value_of(s.drop_last()) + (s.last() as u32 - 48)
    }
}

/// The 16 bit number that `s` denotes: an optional `+`, then at least one digit and digits only.
pub open spec fn u16_of(s: Seq<char>) -> Option<u16> {
    let t = if s.len() > 0 && s[0] == '+' {
        s.drop_first()
    } else {
        s
    };
    if t.len() > 0 && all_digits(t) && value_of(t) <= u16::MAX {
        Some(value_of(t) as u16)
    } else {
        None
    }
}

/// The dotted notation of an address.
pub open spec fn ip_text(ip: Ipv4Addr) -> Seq<char> {
    text::joined(
        seq![
            decimal(ip.a as nat),
            decimal(ip.b as nat),
            decimal(ip.c as nat),
            decimal(ip.d as nat),
        ],
        '.',
    )
}

/// The address whose dotted notation is exactly `s`.
pub open spec fn ip_of(s: Seq<char>) -> Option<Ipv4Addr> {
    if exists|ip: Ipv4Addr| #[trigger] ip_text(ip) == s {
        Some(choose|ip: Ipv4Addr| #[trigger] ip_text(ip) == s)
    } else {
        None
    }
}

/// The notation `address:port` of a rule.
pub open spec fn rule_text(rule: Rule) -> Seq<char> {
    ip_text(rule.ip) + seq![':'] + decimal(rule.port as nat)
}

/// The rule that `s` denotes: white space around it does not count, and the last colon parts
/// the address from the port.
pub open spec fn rule_of(s: Seq<char>) -> Option<Rule> {
    let t = text::trimmed(s);
    let colon = text::last_position(t, ':');
    if colon < 0 {
        None
    } else {
        match (ip_of(t.take(colon)), u16_of(t.skip(colon + 1))) {
            (Some(ip), Some(port)) => Some(Rule { ip, port }),
            _ => None,
        }
    }
}

// ---------------------------------------------------------------------------
// Facts
// ---------------------------------------------------------------------------

/// Decimal notation is made of digits, and the number is its value.
pub proof fn lemma_decimal_digits(n: nat)
    ensures
        decimal(n).len() > 0,
        all_digits(decimal(n)),
        value_of(decimal(n)) == n,
    decreases n,
{
    if n >= 10 {
        lemma_decimal_digits(n / 10);
        let head = decimal(n / 10);
        let all = decimal(n);
        assert(all.drop_last() =~= head);
        assert forall|i: int| 0 <= i < all.len() implies is_digit(#[trigger] all[i]) by {
            if i < head.len() {
                assert(all[i] == head[i]);
            }
        }
    } else {
        let all = decimal(n);
        assert(all.drop_last() =~= Seq::<char>::empty());
        assert(value_of(all.drop_last()) == 0);
    }
}

/// Digits hold none of the characters that part the notations.
pub proof fn lemma_digits_plain(s: Seq<char>)
    requires
        all_digits(s),
    ensures
        text::space_free(s),
        forall|i: int|
            0 <= i < s.len() ==> #[trigger] s[i] != '.' && s[i] != ':' && s[i] != ',' && s[i]
                != '\n' && s[i] != '\r' && s[i] != '+' && s[i] != '#' && s[i] != '/',
{
    assert forall|i: int| 0 <= i < s.len() implies !text::is_space(#[trigger] s[i]) by {
        assert(is_digit(s[i]));
    }
    assert forall|i: int| 0 <= i < s.len() implies #[trigger] s[i] != '.' && s[i] != ':' && s[i]
        != ',' && s[i] != '\n' && s[i] != '\r' && s[i] != '+' && s[i] != '#' && s[i] != '/' by {
        assert(is_digit(s[i]));
    }
}

/// A number is read back from its decimal notation.
pub proof fn lemma_u16_decimal(n: u16)
    ensures
        u16_of(decimal(n as nat)) == Some(n),
{
    lemma_decimal_digits(n as nat);
    lemma_digits_plain(decimal(n as nat));
}

/// A digit is the character of the number that it denotes.
proof fn lemma_digit_char(c: char)
    requires
        is_digit(c),
    ensures
        digit((c as u32 - 48) as nat) == c,
{
}

/// A longer run of digits denotes no smaller number.
proof fn lemma_value_grows(s: Seq<char>, k: int)
    requires
        all_digits(s),
        0 <= k <= s.len(),
    ensures
        0 <= value_of(s.take(k)) <= value_of(s),
    decreases s.len(),
{
    if s.len() == 0 {
        assert(s.take(k) =~= s);
    } else {
        let shorter = s.drop_last();
        assert forall|i: int| 0 <= i < shorter.len() implies is_digit(#[trigger] shorter[i]) by {
            assert(shorter[i] == s[i]);
        }
        assert(is_digit(s[s.len() - 1]));
        if k == s.len() {
            assert(s.take(k) =~= s);
            lemma_value_grows(shorter, shorter.len() as int);
            assert(shorter.take(shorter.len() as int) =~= shorter);
        } else {
            lemma_value_grows(shorter, k);
            assert(shorter.take(k) =~= s.take(k));
            lemma_value_grows(shorter, shorter.len() as int);
        }
    }
}

/// The four parts of an address.
pub open spec fn octets(ip: Ipv4Addr) -> Seq<Seq<char>> {
    seq![
        decimal(ip.a as nat),
        decimal(ip.b as nat),
        decimal(ip.c as nat),
        decimal(ip.d as nat),
    ]
}

/// The dotted notation falls into the four octets at its dots.
pub proof fn lemma_ip_pieces(ip: Ipv4Addr)
    ensures
        text::pieces(ip_text(ip), Some('.')) == octets(ip),
{
    lemma_decimal_digits(ip.a as nat);
    lemma_decimal_digits(ip.b as nat);
    lemma_decimal_digits(ip.c as nat);
    lemma_decimal_digits(ip.d as nat);
    let parts = octets(ip);
    assert forall|i: int| 0 <= i < parts.len() implies text::unbroken(
        #[trigger] parts[i],
        Some('.'),
    ) by {
        lemma_digits_plain(parts[i]);
        let p = parts[i];
        assert forall|k: int| 0 <= k < p.len() implies !text::separates(
            #[trigger] p[k],
            Some('.'),
        ) by {
            assert(p[k] != '.');
        }
    }
    text_facts::lemma_pieces_joined(parts, '.', Some('.'));
}

/// Two addresses with the same dotted notation are the same.
pub proof fn lemma_ip_text_injective(x: Ipv4Addr, y: Ipv4Addr)
    requires
        ip_text(x) == ip_text(y),
    ensures
        x == y,
{
    lemma_ip_pieces(x);
    lemma_ip_pieces(y);
    let p = octets(x);
    let q = octets(y);
    assert(p[0] == q[0] && p[1] == q[1] && p[2] == q[2] && p[3] == q[3]);
    lemma_decimal_digits(x.a as nat);
    lemma_decimal_digits(x.b as nat);
    lemma_decimal_digits(x.c as nat);
    lemma_decimal_digits(x.d as nat);
    lemma_decimal_digits(y.a as nat);
    lemma_decimal_digits(y.b as nat);
    lemma_decimal_digits(y.c as nat);
    lemma_decimal_digits(y.d as nat);
}

/// Reading the dotted notation of an address gives that address.
pub proof fn law_ip_round_trip(ip: Ipv4Addr)
    ensures
        ip_of(ip_text(ip)) == Some(ip),
{
    let s = ip_text(ip);
    assert(exists|other: Ipv4Addr| #[trigger] ip_text(other) == s);
    let other = choose|other: Ipv4Addr| #[trigger] ip_text(other) == s;
    lemma_ip_text_injective(other, ip);
}

/// The dotted notation is made of digits and dots and begins and ends with a digit.
pub proof fn lemma_ip_text_plain(ip: Ipv4Addr)
    ensures
        ip_text(ip).len() > 0,
        forall|i: int|
            0 <= i < ip_text(ip).len() ==> is_digit(#[trigger] ip_text(ip)[i]) || ip_text(ip)[i]
                == '.',
        is_digit(ip_text(ip)[0]),
        is_digit(ip_text(ip).last()),
{
    let p = octets(ip);
    lemma_decimal_digits(ip.a as nat);
    lemma_decimal_digits(ip.b as nat);
    lemma_decimal_digits(ip.c as nat);
    lemma_decimal_digits(ip.d as nat);
    let p1 = p.take(1);
    let p2 = p.take(2);
    let p3 = p.take(3);
    assert(p.drop_last() =~= p3);
    assert(p3.drop_last() =~= p2);
    assert(p2.drop_last() =~= p1);
    let dot = seq!['.'];
    assert(text::joined(p1, '.') == p[0]);
    assert(text::joined(p2, '.') == p[0] + dot + p[1]);
    assert(text::joined(p3, '.') == p[0] + dot + p[1] + dot + p[2]);
    assert(ip_text(ip) == p[0] + dot + p[1] + dot + p[2] + dot + p[3]);
}

/// Reading the notation of a rule gives that rule.
pub proof fn law_rule_round_trip(rule: Rule)
    ensures
        rule_of(rule_text(rule)) == Some(rule),
{
    let left = ip_text(rule.ip);
    let right = decimal(rule.port as nat);
    let s = rule_text(rule);
    lemma_ip_text_plain(rule.ip);
    lemma_decimal_digits(rule.port as nat);
    lemma_digits_plain(right);
    assert(s[0] == left[0]);
    assert(s.last() == right[right.len() - 1]);
    assert(is_digit(right[right.len() - 1]));
    text_facts::lemma_trimmed_same(s);
    text_facts::lemma_last_position(left, ':', right);
    assert(s.take(left.len() as int) =~= left);
    assert(s.skip((left.len() + 1) as int) =~= right);
    law_ip_round_trip(rule.ip);
    lemma_u16_decimal(rule.port);
}

/// Some zeros.
pub open spec fn zeros(k: nat) -> Seq<char> {
    Seq::new(k, |i: int| '0')
}

/// Decimal notation puts the digit of the units behind the notation of the tens, and begins with a
/// zero only for the number zero.
pub proof fn law_decimal(m: nat, d: nat)
    requires
        d < 10,
    ensures
        decimal(d) == seq![('0' as u32 + d) as char],
        m > 0 ==> decimal(10 * m + d) == decimal(m) + decimal(d),
        m > 0 ==> decimal(m)[0] != '0',
{
    if m > 0 {
        assert((10 * m + d) / 10 == m && (10 * m + d) % 10 == d) by (nonlinear_arith)
            requires
                d < 10,
        ;
        assert(decimal(10 * m + d) =~= decimal(m) + decimal(d));
        lemma_no_leading_zero(m);
    }
}

proof fn lemma_no_leading_zero(m: nat)
    requires
        m > 0,
    ensures
        decimal(m)[0] != '0',
    decreases m,
{
    if m >= 10 {
        lemma_no_leading_zero(m / 10);
        lemma_decimal_digits(m / 10);
        assert(decimal(m)[0] == decimal(m / 10)[0]);
    }
}

/// Digits are the decimal notation of their value behind some zeros.
proof fn lemma_digits_are_decimal(t: Seq<char>)
    requires
        t.len() > 0,
        all_digits(t),
    ensures
        value_of(t) >= 0,
        exists|k: nat| t == #[trigger] zeros(k) + decimal(value_of(t) as nat),
    decreases t.len(),
{
    let shorter = t.drop_last();
    let c = t[t.len() - 1];
    assert(is_digit(c));
    let d = (c as u32 - 48) as nat;
    lemma_digit_char(c);
    assert(t =~= shorter.push(c));
    if shorter.len() == 0 {
        assert(value_of(shorter) == 0);
        assert(t =~= zeros(0) + decimal(d));
    } else {
        assert forall|i: int| 0 <= i < shorter.len() implies is_digit(#[trigger] shorter[i]) by {
            assert(shorter[i] == t[i]);
        }
        lemma_digits_are_decimal(shorter);
        let v = value_of(shorter) as nat;
        let k = choose|k: nat| shorter == #[trigger] zeros(k) + decimal(v);
        law_decimal(v, d);
        if v == 0 {
            assert(decimal(0) =~= seq!['0']);
            assert(t =~= zeros(k + 1) + decimal(d));
        } else {
            assert(t =~= zeros(k) + decimal(10 * v + d));
        }
    }
}

proof fn lemma_zeros_value(k: nat, n: nat)
    ensures
        all_digits(zeros(k) + decimal(n)),
        value_of(zeros(k) + decimal(n)) == n,
    decreases n,
{
    let s = zeros(k) + decimal(n);
    lemma_decimal_digits(n);
    assert forall|i: int| 0 <= i < s.len() implies is_digit(#[trigger] s[i]) by {
        if i >= k {
            assert(s[i] == decimal(n)[i - k]);
        }
    }
    if n >= 10 {
        assert(s.drop_last() =~= zeros(k) + decimal(n / 10));
        lemma_zeros_value(k, n / 10);
    } else {
        assert(s.drop_last() =~= zeros(k));
        lemma_zeros_zero(k);
    }
}

proof fn lemma_zeros_zero(k: nat)
    ensures
        value_of(zeros(k)) == 0,
    decreases k,
{
    if k > 0 {
        assert(zeros(k).drop_last() =~= zeros((k - 1) as nat));
        lemma_zeros_zero((k - 1) as nat);
    }
}

/// A number is read from its decimal notation, with any zeros and a plus sign before it, exactly when
/// it has 16 bits.
pub proof fn law_number_read(k: nat, n: nat)
    ensures
        u16_of(zeros(k) + decimal(n)) == if n < 0x10000 {
            Some(n as u16)
        } else {
            None
        },
        u16_of(seq!['+'] + zeros(k) + decimal(n)) == u16_of(zeros(k) + decimal(n)),
{
    let s = zeros(k) + decimal(n);
    lemma_decimal_digits(n);
    lemma_zeros_value(k, n);
    lemma_digits_plain(s);
    assert(s.len() > 0 && s[0] != '+');
    let p = seq!['+'] + zeros(k) + decimal(n);
    assert(p[0] == '+');
    assert(p.drop_first() =~= s);
}

/// Only such a notation is read as a number.
pub proof fn law_number_only(s: Seq<char>, n: u16)
    requires
        u16_of(s) == Some(n),
    ensures
        exists|k: nat| #[trigger]
            (zeros(k) + decimal(n as nat)) == s || seq!['+'] + zeros(k) + decimal(n as nat) == s,
{
    let t = if s.len() > 0 && s[0] == '+' {
        s.drop_first()
    } else {
        s
    };
    lemma_digits_are_decimal(t);
    let k = choose|k: nat| t == #[trigger] zeros(k) + decimal(value_of(t) as nat);
    if s.len() > 0 && s[0] == '+' {
        assert(s =~= seq!['+'] + t);
        assert(seq!['+'] + zeros(k) + decimal(n as nat) =~= seq!['+'] + (zeros(k) + decimal(
            n as nat,
        )));
    }
}

/// The dotted notation of an address: its four parts in decimal notation with dots between them. It
/// is the only text that is read as that address.
pub proof fn law_ip_notation(ip: Ipv4Addr, s: Seq<char>)
    ensures
        ip_text(ip) == decimal(ip.a as nat) + seq!['.'] + decimal(ip.b as nat) + seq!['.']
            + decimal(ip.c as nat) + seq!['.'] + decimal(ip.d as nat),
        ip_of(s) == Some(ip) <==> s == ip_text(ip),
{
    let p = octets(ip);
    let dot = seq!['.'];
    assert(p.drop_last() =~= p.take(3));
    assert(p.take(3).drop_last() =~= p.take(2));
    assert(p.take(2).drop_last() =~= p.take(1));
    assert(text::joined(p.take(1), '.') == p[0]);
    assert(text::joined(p.take(2), '.') == p[0] + dot + p[1]);
    assert(text::joined(p.take(3), '.') == p[0] + dot + p[1] + dot + p[2]);
    law_ip_round_trip(ip);
}

/// The text that is read as a number has neither white space nor a colon in it.
pub proof fn lemma_number_plain(t: Seq<char>, n: u16)
    requires
        u16_of(t) == Some(n),
    ensures
        t.len() > 0,
        !t.contains(':'),
        text_facts::tight(t),
{
    let d = if t[0] == '+' {
        t.drop_first()
    } else {
        t
    };
    assert forall|i: int| 0 <= i < t.len() implies #[trigger] t[i] != ':' && !text::is_space(
        t[i],
    ) by {
        if t[0] == '+' {
            if i > 0 {
                assert(is_digit(d[i - 1]));
            }
        } else {
            assert(is_digit(d[i]));
        }
    }
}

/// A rule is an address and a port with a colon between them, however the port is written and whatever
/// white space stands around.
pub proof fn law_rule_read(
    a: Seq<char>,
    ip: Ipv4Addr,
    t: Seq<char>,
    port: u16,
    b: Seq<char>,
)
    requires
        text_facts::blank(a),
        text_facts::blank(b),
        u16_of(t) == Some(port),
    ensures
        rule_of(a + (ip_text(ip) + seq![':'] + t) + b) == Some(Rule { ip, port }),
{
    let left = ip_text(ip);
    let core = left + seq![':'] + t;
    lemma_number_plain(t, port);
    lemma_ip_text_plain(ip);
    assert(core[0] == left[0]);
    assert(core[core.len() - 1] == t[t.len() - 1]);
    text_facts::law_trimmed(a, core, b);
    text_facts::lemma_last_position(left, ':', t);
    assert(core.take(left.len() as int) =~= left);
    assert(core.skip(left.len() as int + 1) =~= t);
    law_ip_round_trip(ip);
}

/// Only such a text is read as a rule.
pub proof fn law_rule_only(s: Seq<char>, rule: Rule)
    requires
        rule_of(s) == Some(rule),
    ensures
        exists|t: Seq<char>|
            u16_of(t) == Some(rule.port) && text::trimmed(s) == #[trigger] (ip_text(rule.ip)
                + seq![':'] + t),
{
    let core = text::trimmed(s);
    let colon = text::last_position(core, ':');
    text_facts::law_last_position(core, ':');
    let t = core.skip(colon + 1);
    law_ip_notation(rule.ip, core.take(colon));
    assert(core =~= core.take(colon) + seq![':'] + t);
}

// ---------------------------------------------------------------------------
// Executable operations
// ---------------------------------------------------------------------------

/// Appends the decimal notation of `n` to `out`.
pub fn append_decimal(out: &mut Vec<char>, n: u16)
    ensures
        final(out)@ == old(out)@ + decimal(n as nat),
    decreases n,
{
    if n < 10 {
        out.push((48u8 + n as u8) as char);
        proof {
            assert(out@ =~= old(out)@ + decimal(n as nat));
        }
    } else {
        append_decimal(out, n / 10);
        out.push((48u8 + (n % 10) as u8) as char);
        proof {
            assert(out@ =~= old(out)@ + decimal(n as nat));
        }
    }
}

/// The 16 bit number that `s` denotes.
pub fn parse_u16(s: &[char]) -> (out: Option<u16>)
    ensures
        out == u16_of(s@),
{
    let mut t = s;
    if s.len() > 0 && s[0] == '+' {
        t = slice_subrange(s, 1, s.len());
        proof {
            assert(t@ =~= s@.drop_first());
        }
    }
    if t.len() == 0 {
        return None;
    }
    let mut value: u32 = 0;
    for i in 0..t.len()
        invariant
            t@ == if s@.len() > 0 && s@[0] == '+' {
                s@.drop_first()
            } else {
                s@
            },
            value <= u16::MAX,
            value == value_of(t@.take(i as int)),
            forall|k: int| 0 <= k < i ==> is_digit(#[trigger] t@[k]),
    {
        let code: u32 = t[i] as u32;
        if code < 48 || code > 57 {
            proof {
                assert(!is_digit(t@[i as int]));
            }
            return None;
        }
        proof {
            assert(t@.take(i + 1).drop_last() =~= t@.take(i as int));
            assert(t@.take(i + 1).last() == t@[i as int]);
        }
        value = 10 * value + (code - 48);
        if value > 65535 {
            proof {
                if all_digits(t@) {
                    lemma_value_grows(t@, i + 1);
                }
            }
            return None;
        }
    }
    proof {
        assert(t@.take(t@.len() as int) =~= t@);
    }
    Some(value as u16)
}

/// The number below 256 whose decimal notation is exactly `s`.
fn parse_octet(s: &[char]) -> (out: Option<u8>)
    ensures
        out matches Some(n) ==> s@ == decimal(n as nat),
        out is None ==> forall|n: u8| s@ != #[trigger] decimal(n as nat),
{
    proof {
        assert forall|n: u8| #[trigger] decimal(n as nat) == s@ implies all_digits(s@)
            && value_of(s@) == n && 0 < s@.len() <= 3 && (s@.len() > 1 ==> s@[0] != '0') by {
            lemma_decimal_digits(n as nat);
            reveal_with_fuel(decimal, 3);
        }
    }
    if s.len() == 0 || s.len() > 3 {
        return None;
    }
    if s.len() > 1 && s[0] == '0' {
        return None;
    }
    let mut value: u32 = 0;
    for i in 0..s.len()
        invariant
            s@.len() <= 3,
            value == value_of(s@.take(i as int)),
            i == 0 ==> value == 0,
            i == 1 ==> value <= 9,
            i == 2 ==> value <= 99,
            i == 3 ==> value <= 999,
            forall|k: int| 0 <= k < i ==> is_digit(#[trigger] s@[k]),
            forall|n: u8| #[trigger]
                decimal(n as nat) == s@ ==> all_digits(s@) && value_of(s@) == n,
    {
        let code: u32 = s[i] as u32;
        if code < 48 || code > 57 {
            proof {
                assert(!is_digit(s@[i as int]));
            }
            return None;
        }
        proof {
            assert(s@.take(i + 1).drop_last() =~= s@.take(i as int));
            assert(s@.take(i + 1).last() == s@[i as int]);
        }
        value = 10 * value + (code - 48);
    }
    proof {
        assert(s@.take(s@.len() as int) =~= s@);
    }
    if value > 255 {
        return None;
    }
    proof {
        reveal_with_fuel(decimal, 3);
        reveal_with_fuel(value_of, 4);
        assert(is_digit(s@[0]));
        lemma_digit_char(s@[0]);
        if s@.len() == 1 {
            assert(s@.drop_last() =~= Seq::<char>::empty());
            assert(s@ =~= decimal(value as nat));
        } else if s@.len() == 2 {
            assert(is_digit(s@[1]));
            lemma_digit_char(s@[1]);
            assert(s@.drop_last().drop_last() =~= Seq::<char>::empty());
            assert(value == 10 * (s@[0] as u32 - 48) + (s@[1] as u32 - 48));
            assert(s@ =~= decimal(value as nat));
        } else {
            assert(is_digit(s@[1]) && is_digit(s@[2]));
            lemma_digit_char(s@[1]);
            lemma_digit_char(s@[2]);
            assert(s@.drop_last().drop_last().drop_last() =~= Seq::<char>::empty());
            assert(value == 100 * (s@[0] as u32 - 48) + 10 * (s@[1] as u32 - 48) + (s@[2] as u32
                - 48));
            assert(s@ =~= decimal(value as nat));
        }
    }
    Some(value as u8)
}

impl Ipv4Addr {
    /// The address whose dotted notation is exactly `s`.
    pub fn parse(s: &[char]) -> (out: Option<Ipv4Addr>)
        ensures
            out == ip_of(s@),
    {
        let parts = text::split(s, Some('.'));
        proof {
            assert forall|ip: Ipv4Addr| #[trigger] ip_text(ip) == s@ implies parts@.len() == 4
                && parts@[0]@ == decimal(ip.a as nat) && parts@[1]@ == decimal(ip.b as nat)
                && parts@[2]@ == decimal(ip.c as nat) && parts@[3]@ == decimal(ip.d as nat) by {
                lemma_ip_pieces(ip);
                let view = text::contents(parts@);
                assert(view == octets(ip));
                assert(view.len() == 4);
                assert(view[0] == parts@[0]@ && view[1] == parts@[1]@ && view[2] == parts@[2]@
                    && view[3] == parts@[3]@);
            }
        }
        if parts.len() != 4 {
            return None;
        }
        let a = parse_octet(parts[0].as_slice());
        let b = parse_octet(parts[1].as_slice());
        let c = parse_octet(parts[2].as_slice());
        let d = parse_octet(parts[3].as_slice());
        match (a, b, c, d) {
            (Some(a), Some(b), Some(c), Some(d)) => {
                let ip = Ipv4Addr { a, b, c, d };
                proof {
                    assert(text::contents(parts@) =~= octets(ip));
                    text_facts::lemma_joined_pieces(s@, '.');
                    assert(ip_text(ip) == s@);
                    law_ip_round_trip(ip);
                }
                Some(ip)
            },
            _ => None,
        }
    }

    /// Appends the dotted notation of the address to `out`.
    pub fn append_to(&self, out: &mut Vec<char>)
        ensures
            final(out)@ == old(out)@ + ip_text(*self),
    {
        append_decimal(out, self.a as u16);
        out.push('.');
        append_decimal(out, self.b as u16);
        out.push('.');
        append_decimal(out, self.c as u16);
        out.push('.');
        append_decimal(out, self.d as u16);
        proof {
            let p = octets(*self);
            assert(p.drop_last().drop_last().drop_last() =~= p.take(1));
            assert(p.drop_last().drop_last() =~= p.take(2));
            assert(p.drop_last() =~= p.take(3));
            let dot = seq!['.'];
            assert(text::joined(p.take(1), '.') == p[0]);
            assert(text::joined(p.take(2), '.') == p[0] + dot + p[1]);
            assert(text::joined(p.take(3), '.') == p[0] + dot + p[1] + dot + p[2]);
            assert(ip_text(*self) == p[0] + dot + p[1] + dot + p[2] + dot + p[3]);
            assert(out@ =~= old(out)@ + ip_text(*self));
        }
    }

    /// The dotted notation of the address.
    pub fn to_text(&self) -> (out: String)
        ensures
            out@ == ip_text(*self),
    {
        let mut chars: Vec<char> = Vec::new();
        self.append_to(&mut chars);
        proof {
            assert(chars@ =~= ip_text(*self));
        }
        text::string_of(chars.as_slice())
    }
}

impl Rule {
    /// Appends the notation `address:port` to `out`.
    pub fn append_to(&self, out: &mut Vec<char>)
        ensures
            final(out)@ == old(out)@ + rule_text(*self),
    {
        self.ip.append_to(out);
        out.push(':');
        append_decimal(out, self.port);
        proof {
            assert(out@ =~= old(out)@ + rule_text(*self));
        }
    }
}

/// The rule that the characters of `s` denote.
pub fn rule_from(s: &[char]) -> (out: Option<Rule>)
    ensures
        out == rule_of(s@),
{
    let t = text::trim(s);
    if t.len() == 0 {
        return None;
    }
    let colon: usize = match text::rfind(t, ':') {
        Some(i) => i,
        None => {
            return None;
        },
    };
    let left = slice_subrange(t, 0, colon);
    let right = slice_subrange(t, colon + 1, t.len());
    proof {
        assert(left@ =~= t@.take(colon as int));
        assert(right@ =~= t@.skip(colon + 1));
    }
    match (Ipv4Addr::parse(left), parse_u16(right)) {
        (Some(ip), Some(port)) => Some(Rule { ip, port }),
        _ => None,
    }
}

/// The rule that `s` denotes, written `address:port`.
pub fn parse_ip_port(s: &str) -> (out: Option<Rule>)
    ensures
        out == rule_of(s@),
{
    let chars = text::chars_of(s);
    rule_from(chars.as_slice())
}

} // verus!

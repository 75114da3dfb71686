//! IPv4 addresses and their dotted decimal notation.

use vstd::prelude::*;

verus! {

/// An IPv4 address, held as the number whose big-endian bytes are its octets.
#[derive(Clone, Copy, PartialEq, Eq, Structural, Debug)]
pub struct Ipv4Addr {
    pub bits: u32,
}

/// The address `0.0.0.0`, which stands for a peer that is not known yet.
pub const UNDETERMINED_IP_ADDR: u32 = 0;

/// The character of a decimal digit.
pub open spec fn digit(d: int) -> char {
    (0x30 + d) as char
}

pub open spec fn is_digit(c: char) -> bool {
    '0' <= c && c <= '9'
}

/// A number below a thousand in decimal notation, without leading zeros.
pub open spec fn decimal(n: int) -> Seq<char> {
    if n < 10 {
        seq![digit(n)]
    } else if n < 100 {
        seq![digit(n / 10), digit(n % 10)]
    } else {
        seq![digit(n / 100), digit(n / 10 % 10), digit(n % 10)]
    }
}

/// The text of the address with these octets.
pub open spec fn dotted(a: u8, b: u8, c: u8, d: u8) -> Seq<char> {
    decimal(a as int) + (seq!['.'] + (decimal(b as int) + (seq!['.'] + (decimal(c as int) + (
    seq!['.'] + decimal(d as int))))))
}

impl Ipv4Addr {
    /// The octets of the address, from the first on.
    pub open spec fn octet(self, i: int) -> u8 {
        if i == 0 {
            (self.bits / 0x100_0000) as u8
        } else if i == 1 {
            (self.bits / 0x1_0000 % 0x100) as u8
        } else if i == 2 {
            (self.bits / 0x100 % 0x100) as u8
        } else {
            (self.bits % 0x100) as u8
        }
    }

    /// The dotted decimal notation of the address.
    pub open spec fn text(self) -> Seq<char> {
        dotted(self.octet(0), self.octet(1), self.octet(2), self.octet(3))
    }

    /// The address `a.b.c.d`.
    pub fn new(a: u8, b: u8, c: u8, d: u8) -> (r: Self)
        ensures
            r.bits == a * 0x100_0000 + b * 0x1_0000 + c * 0x100 + d,
            r.octet(0) == a,
            r.octet(1) == b,
            r.octet(2) == c,
            r.octet(3) == d,
    {
        let bits: u32 = a as u32 * 0x100_0000 + b as u32 * 0x1_0000 + c as u32 * 0x100 + d as u32;
        proof {
            let top = a * 0x100 + b;
            assert(bits / 0x100_0000 == a);
            assert(bits / 0x1_0000 == top);
            assert(top % 0x100 == b);
            assert(bits / 0x100 == top * 0x100 + c);
            assert((top * 0x100 + c) % 0x100 == c);
            assert(bits % 0x100 == d);
        }
        Ipv4Addr { bits }
    }

    /// Reads an address in dotted decimal notation: four numbers up to 255
    /// without leading zeros, and dots between them.
    pub fn parse(chars: &[char]) -> (r: Option<Ipv4Addr>)
        ensures
            match r {
                Some(addr) => chars@ == addr.text(),
                None => forall|addr: Ipv4Addr| chars@ != #[trigger] addr.text(),
            },
    {
        let ghost s0 = chars@;
        assert(s0.skip(0) =~= s0);
        let (a, i) = match take_dotted(chars, 0) {
            Some(found) => found,
            None => {
                return None;
            },
        };
        let ghost s1 = s0.skip(i as int);
        let (b, j) = match take_dotted(chars, i) {
            Some(found) => found,
            None => {
                assert forall|addr: Ipv4Addr| s0 != #[trigger] addr.text() by {
                    lemma_text_starts(addr, a, s1);
                }
                return None;
            },
        };
        let ghost s2 = s0.skip(j as int);
        let (c, k) = match take_dotted(chars, j) {
            Some(found) => found,
            None => {
                assert forall|addr: Ipv4Addr| s0 != #[trigger] addr.text() by {
                    lemma_text_starts(addr, a, s1);
                    lemma_tail_starts(addr.octet(1), addr.tail(2), b, s2);
                }
                return None;
            },
        };
        let ghost s3 = s0.skip(k as int);
        let d: u8 = match take_last(chars, k) {
            Some(found) => found,
            None => {
                assert forall|addr: Ipv4Addr| s0 != #[trigger] addr.text() by {
                    lemma_text_starts(addr, a, s1);
                    lemma_tail_starts(addr.octet(1), addr.tail(2), b, s2);
                    lemma_tail_starts(addr.octet(2), addr.tail(3), c, s3);
                }
                return None;
            },
        };
        Some(Ipv4Addr::new(a, b, c, d))
    }

    /// The text of the octets from the one at `i` on.
    spec fn tail(self, i: int) -> Seq<char>
        decreases 3 - i,
    {
        if i >= 3 {
            decimal(self.octet(3) as int)
        } else {
            decimal(self.octet(i) as int) + (seq!['.'] + self.tail(i + 1))
        }
    }
}

/// Where a text begins with a number and a dot, both are determined.
proof fn lemma_tail_starts(n: u8, rest: Seq<char>, m: u8, other: Seq<char>)
    ensures
        decimal(n as int) + (seq!['.'] + rest) == decimal(m as int) + (seq!['.'] + other) ==> n == m
            && rest == other,
{
    if decimal(n as int) + (seq!['.'] + rest) == decimal(m as int) + (seq!['.'] + other) {
        lemma_number_unique(n, seq!['.'] + rest, m, seq!['.'] + other);
        assert(rest =~= (seq!['.'] + rest).skip(1));
        assert(other =~= (seq!['.'] + other).skip(1));
    }
}

proof fn lemma_text_starts(addr: Ipv4Addr, a: u8, rest: Seq<char>)
    ensures
        addr.text() == addr.tail(0),
        addr.tail(1) == decimal(addr.octet(1) as int) + (seq!['.'] + addr.tail(2)),
        addr.tail(2) == decimal(addr.octet(2) as int) + (seq!['.'] + addr.tail(3)),
        addr.tail(3) == decimal(addr.octet(3) as int),
        addr.text() == decimal(a as int) + (seq!['.'] + rest) ==> addr.octet(0) == a
            && addr.tail(1) == rest,
{
    reveal_with_fuel(Ipv4Addr::tail, 4);
    lemma_tail_starts(addr.octet(0), addr.tail(1), a, rest);
}

/// Different addresses have different texts, so a text is read as one address only.
pub proof fn text_names_one_address(x: Ipv4Addr, y: Ipv4Addr)
    requires
        x.text() == y.text(),
    ensures
        x == y,
{
    lemma_text_starts(x, x.octet(0), x.tail(1));
    lemma_text_starts(y, y.octet(0), y.tail(1));
    lemma_text_starts(x, y.octet(0), y.tail(1));
    lemma_tail_starts(x.octet(1), x.tail(2), y.octet(1), y.tail(2));
    lemma_tail_starts(x.octet(2), x.tail(3), y.octet(2), y.tail(3));
    assert(x.tail(3) =~= x.tail(3) + Seq::<char>::empty());
    assert(y.tail(3) =~= y.tail(3) + Seq::<char>::empty());
    lemma_number_unique(x.octet(3), Seq::empty(), y.octet(3), Seq::empty());
    lemma_octets(x);
    lemma_octets(y);
}

/// The octets of an address are its digits to the base 256.
pub proof fn lemma_octets(x: Ipv4Addr)
    ensures
        x.bits == x.octet(0) * 0x100_0000 + x.octet(1) * 0x1_0000 + x.octet(2) * 0x100 + x.octet(3),
{
    let (b1, b2, b3) = (x.bits / 0x100, x.bits / 0x1_0000, x.bits / 0x100_0000);
    assert(x.bits == b1 * 0x100 + x.bits % 0x100);
    assert(b1 / 0x100 == b2);
    assert(b1 == b2 * 0x100 + b1 % 0x100);
    assert(b2 / 0x100 == b3);
    assert(b2 == b3 * 0x100 + b2 % 0x100);
}

/// Reads a number and the dot after it, and tells where the rest begins.
fn take_dotted(chars: &[char], start: usize) -> (r: Option<(u8, usize)>)
    requires
        start <= chars@.len(),
    ensures
        match r {
            Some((n, next)) => {
                &&& next <= chars@.len()
                &&& chars@.skip(start as int) == decimal(n as int) + (seq!['.'] + chars@.skip(
                    next as int,
                ))
            },
            None => forall|n: u8, rest: Seq<char>|
                chars@.skip(start as int) != #[trigger] (decimal(n as int) + (seq!['.'] + rest)),
        },
{
    let ghost s = chars@.skip(start as int);
    match take_octet(chars, start) {
        Some((n, next)) => {
            let ghost after = chars@.skip(next as int);
            assert(s =~= decimal(n as int) + after);
            if next < chars.len() && chars[next] == '.' {
                assert(after =~= seq!['.'] + chars@.skip(next + 1));
                Some((n, next + 1))
            } else {
                assert forall|m: u8, rest: Seq<char>| s != #[trigger] (decimal(m as int) + (
                seq!['.'] + rest)) by {
                    if s == decimal(m as int) + (seq!['.'] + rest) {
                        lemma_number_unique(n, after, m, seq!['.'] + rest);
                        assert(after[0] == '.');
                    }
                }
                None
            }
        },
        None => {
            assert forall|m: u8, rest: Seq<char>| s != #[trigger] (decimal(m as int) + (seq!['.']
                + rest)) by {
                assert(ends_number(seq!['.'] + rest));
            }
            None
        },
    }
}

/// Reads a number that the text ends with.
fn take_last(chars: &[char], start: usize) -> (r: Option<u8>)
    requires
        start <= chars@.len(),
    ensures
        match r {
            Some(n) => chars@.skip(start as int) == decimal(n as int),
            None => forall|n: u8| chars@.skip(start as int) != #[trigger] decimal(n as int),
        },
{
    let ghost s = chars@.skip(start as int);
    match take_octet(chars, start) {
        Some((n, next)) => {
            let ghost after = chars@.skip(next as int);
            assert(s =~= decimal(n as int) + after);
            if next == chars.len() {
                assert(s =~= decimal(n as int));
                Some(n)
            } else {
                assert forall|m: u8| s != #[trigger] decimal(m as int) by {
                    if s == decimal(m as int) {
                        assert(s =~= decimal(m as int) + Seq::<char>::empty());
                        lemma_number_unique(n, after, m, Seq::empty());
                    }
                }
                None
            }
        },
        None => {
            assert forall|m: u8| s != #[trigger] decimal(m as int) by {
                assert(decimal(m as int) =~= decimal(m as int) + Seq::<char>::empty());
            }
            None
        },
    }
}

/// Whether a number ends where this text begins.
pub open spec fn ends_number(rest: Seq<char>) -> bool {
    rest.len() == 0 || !is_digit(rest[0])
}

/// The number that up to three digits stand for.
spec fn value_of(s: Seq<char>) -> int {
    if s.len() == 1 {
        s[0] as int - 0x30
    } else if s.len() == 2 {
        (s[0] as int - 0x30) * 10 + (s[1] as int - 0x30)
    } else {
        (s[0] as int - 0x30) * 100 + (s[1] as int - 0x30) * 10 + (s[2] as int - 0x30)
    }
}

proof fn lemma_decimal(n: u8)
    ensures
        1 <= decimal(n as int).len() <= 3,
        forall|i: int| 0 <= i < decimal(n as int).len() ==> is_digit(#[trigger] decimal(n as int)[i]),
        value_of(decimal(n as int)) == n,
        decimal(n as int).len() > 1 ==> decimal(n as int)[0] != '0',
{
}

/// A number and the text after it are told apart in one way only.
proof fn lemma_number_unique(n: u8, rest: Seq<char>, m: u8, other: Seq<char>)
    requires
        ends_number(rest),
        ends_number(other),
        decimal(n as int) + rest == decimal(m as int) + other,
    ensures
        n == m,
        rest == other,
{
    let (p, q) = (decimal(n as int), decimal(m as int));
    let s = p + rest;
    lemma_decimal(n);
    lemma_decimal(m);
    if p.len() < q.len() {
        assert(s[p.len() as int] == rest[0]);
        assert(s[p.len() as int] == q[p.len() as int]);
    }
    if q.len() < p.len() {
        assert(s[q.len() as int] == other[0]);
        assert(s[q.len() as int] == p[q.len() as int]);
    }
    assert forall|i: int| 0 <= i < p.len() implies p[i] == q[i] by {
        assert(s[i] == p[i] && s[i] == q[i]);
    }
    assert(p =~= q);
    assert(rest =~= s.skip(p.len() as int));
    assert(other =~= s.skip(q.len() as int));
}

/// Reads a number up to 255 without leading zeros, and tells where it ends.
fn take_octet(chars: &[char], start: usize) -> (r: Option<(u8, usize)>)
    requires
        start <= chars@.len(),
    ensures
        match r {
            Some((n, next)) => {
                &&& start < next <= chars@.len()
                &&& chars@.subrange(start as int, next as int) == decimal(n as int)
                &&& ends_number(chars@.skip(next as int))
            },
            None => forall|n: u8, rest: Seq<char>|
                ends_number(rest) ==> chars@.skip(start as int) != #[trigger] (decimal(n as int)
                    + rest),
        },
{
    let mut value: u32 = 0;
    let mut i: usize = start;
    while i < chars.len() && i - start < 4 && '0' <= chars[i] && chars[i] <= '9'
        invariant
            start <= i <= chars@.len(),
            i - start <= 4,
            forall|j: int| start <= j < i ==> is_digit(#[trigger] chars@[j]),
            i - start == 0 ==> value == 0,
            i - start == 1 ==> value == chars@[start as int] as int - 0x30,
            i - start == 2 ==> value == (chars@[start as int] as int - 0x30) * 10 + (chars@[start
                + 1] as int - 0x30),
            i - start == 3 ==> value == (chars@[start as int] as int - 0x30) * 100 + (chars@[start
                + 1] as int - 0x30) * 10 + (chars@[start + 2] as int - 0x30),
            value <= 9999,
        decreases chars@.len() - i,
    {
        value = value * 10 + (chars[i] as u32 - 0x30);
        i = i + 1;
    }
    let count: usize = i - start;
    let ghost s = chars@.skip(start as int);
    if count == 0 || count > 3 || value > 255 || (count > 1 && chars[start] == '0') {
        assert forall|n: u8, rest: Seq<char>| ends_number(rest) implies s != #[trigger] (decimal(
            n as int,
        ) + rest) by {
            if s == decimal(n as int) + rest {
                let p = decimal(n as int);
                lemma_decimal(n);
                assert forall|j: int| 0 <= j < p.len() implies #[trigger] s[j] == p[j] by {
                    assert((p + rest)[j] == p[j]);
                }
                if p.len() < count {
                    assert((p + rest)[p.len() as int] == rest[0]);
                    assert(s[p.len() as int] == chars@[start + p.len()]);
                }
                if count < p.len() {
                    assert(s[count as int] == p[count as int]);
                    assert(s[count as int] == chars@[start + count]);
                }
                assert(p.len() == count);
                assert forall|j: int| 0 <= j < count implies p[j] == #[trigger] chars@[start + j] by {
                    assert(s[j] == chars@[start + j]);
                }
                assert(p[0] == chars@[start + 0]);
                if count > 1 {
                    assert(p[1] == chars@[start + 1]);
                }
                if count > 2 {
                    assert(p[2] == chars@[start + 2]);
                }
            }
        }
        return None;
    }
    proof {
        assert(ends_number(chars@.skip(i as int)));
        let part = chars@.subrange(start as int, i as int);
        assert(part =~= decimal(value as int));
    }
    Some((value as u8, i))
}

/// A number up to 255 is written with the digits that make it up, and with no
/// zero before them.
pub proof fn decimal_writes_the_number(n: u8)
    ensures
        ({
            let s = decimal(n as int);
            &&& 1 <= s.len() <= 3
            &&& forall|i: int| 0 <= i < s.len() ==> '0' <= #[trigger] s[i] <= '9'
            &&& s.len() > 1 ==> s[0] != '0'
            &&& s.len() == 1 ==> n == s[0] as int - 48
            &&& s.len() == 2 ==> n == (s[0] as int - 48) * 10 + (s[1] as int - 48)
            &&& s.len() == 3 ==> n == (s[0] as int - 48) * 100 + (s[1] as int - 48) * 10 + (
            s[2] as int - 48)
        }),
{
}

/// The text of an address is its four octets with dots between them.
pub proof fn text_is_four_numbers(x: Ipv4Addr)
    ensures
        x.text() == decimal(x.octet(0) as int) + seq!['.'] + decimal(x.octet(1) as int) + seq!['.']
            + decimal(x.octet(2) as int) + seq!['.'] + decimal(x.octet(3) as int),
        x.bits == x.octet(0) * 0x100_0000 + x.octet(1) * 0x1_0000 + x.octet(2) * 0x100 + x.octet(3),
{
    lemma_octets(x);
    assert(x.text() =~= decimal(x.octet(0) as int) + seq!['.'] + decimal(x.octet(1) as int) + seq![
        '.',
    ] + decimal(x.octet(2) as int) + seq!['.'] + decimal(x.octet(3) as int));
}

/// The text of an address holds digits and dots only.
pub proof fn text_holds_no_space(x: Ipv4Addr)
    ensures
        x.text().len() > 0,
        forall|i: int|
            0 <= i < x.text().len() ==> {
                let c = #[trigger] x.text()[i];
                '0' <= c <= '9' || c == '.'
            },
{
    text_is_four_numbers(x);
    decimal_writes_the_number(x.octet(0));
    decimal_writes_the_number(x.octet(1));
    decimal_writes_the_number(x.octet(2));
    decimal_writes_the_number(x.octet(3));
}

} // verus!

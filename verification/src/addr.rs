//! Network addresses as plain integers, and their written form.

use crate::text::{decimal, hexadecimal};
use vstd::prelude::*;

verus! {

/// An IP address: its bits, most significant first, as one integer.
#[derive(Clone, Copy, Debug, PartialEq, Eq, Structural)]
pub enum IpAddr {
    V4(u32),
    V6(u128),
}

/// An address and a port.
#[derive(Clone, Copy, Debug, PartialEq, Eq, Structural)]
pub struct SocketAddr {
    pub ip: IpAddr,
    pub port: u16,
}

/// The `count` digits of `n` in the given base, most significant first.
pub open spec fn digits(n: nat, base: nat, count: nat) -> Seq<nat>
    decreases count,
{
    if count == 0 {
        seq![]
    } else {
        digits(n / base, base, (count - 1) as nat).push(n % base)
    }
}

/// The numbers in decimal, with dots between them.
pub open spec fn dotted(s: Seq<nat>) -> Seq<char>
    decreases s.len(),
{
    if s.len() == 0 {
        seq![]
    } else if s.len() == 1 {
        crate::text::decimal_text(s[0])
    } else {
        dotted(s.drop_last()).push('.') + crate::text::decimal_text(s.last())
    }
}

/// The numbers in hexadecimal, with colons between them.
pub open spec fn colons(s: Seq<nat>) -> Seq<char>
    decreases s.len(),
{
    if s.len() == 0 {
        seq![]
    } else if s.len() == 1 {
        crate::text::hex_text(s[0])
    } else {
        colons(s.drop_last()).push(':') + crate::text::hex_text(s.last())
    }
}

/// How many zeros stand in a row from position `i` on.
pub open spec fn zero_run(s: Seq<nat>, i: int) -> nat
    decreases s.len() - i,
{
    if 0 <= i < s.len() && s[i] == 0 {
        1 + zero_run(s, i + 1)
    } else {
        0
    }
}

/// The first longest run of zeros that starts before `n`: where it starts and
/// how long it is.
pub open spec fn longest_zeros(s: Seq<nat>, n: nat) -> (int, nat)
    decreases n,
{
    if n == 0 {
        (0, 0)
    } else {
        let before = longest_zeros(s, (n - 1) as nat);
        let here = zero_run(s, n - 1);
        if here > before.1 {
            (n - 1, here)
        } else {
            before
        }
    }
}

/// An IPv4 address in dotted decimal.
pub open spec fn v4_text(bits: nat) -> Seq<char> {
    dotted(digits(bits, 256, 4))
}

/// An IPv6 address as eight groups: the first longest run of two or more zero
/// groups is written `::`, and an IPv4-mapped address ends in dotted decimal.
pub open spec fn v6_text(bits: nat) -> Seq<char> {
    let groups = digits(bits, 0x1_0000, 8);
    let run = longest_zeros(groups, 8);
    if bits / 0x1_0000_0000 == 0xffff {
        "::ffff:"@ + v4_text(bits % 0x1_0000_0000)
    } else if run.1 >= 2 {
        colons(groups.take(run.0)) + "::"@ + colons(groups.skip(run.0 + run.1))
    } else {
        colons(groups)
    }
}

impl IpAddr {
    /// The number of bits in an address of this family.
    pub open spec fn width(self) -> nat {
        match self {
            IpAddr::V4(_) => 32,
            IpAddr::V6(_) => 128,
        }
    }

    /// The address as a number.
    pub open spec fn bits(self) -> nat {
        match self {
            IpAddr::V4(b) => b as nat,
            IpAddr::V6(b) => b as nat,
        }
    }

    /// The written form of the address.
    pub open spec fn text(self) -> Seq<char> {
        match self {
            IpAddr::V4(b) => v4_text(b as nat),
            IpAddr::V6(b) => v6_text(b as nat),
        }
    }

    /// IPv4 addresses come before IPv6 addresses; within a family the order is
    /// that of the numbers.
    pub open spec fn precedes(self, other: IpAddr) -> bool {
        match (self, other) {
            (IpAddr::V4(a), IpAddr::V4(b)) => a < b,
            (IpAddr::V4(_), IpAddr::V6(_)) => true,
            (IpAddr::V6(_), IpAddr::V4(_)) => false,
            (IpAddr::V6(a), IpAddr::V6(b)) => a < b,
        }
    }

    /// The IPv4 address with these four octets.
    pub fn v4(a: u8, b: u8, c: u8, d: u8) -> (r: IpAddr)
        ensures
            r == IpAddr::V4((a * 0x100_0000 + b * 0x1_0000 + c * 0x100 + d) as u32),
    {
        IpAddr::V4((a as u32) * 0x100_0000 + (b as u32) * 0x1_0000 + (c as u32) * 0x100 + d as u32)
    }

    /// Whether this is an IPv4 address.
    pub fn is_ipv4(self) -> (r: bool)
        ensures
            r == (self is V4),
    {
        match self {
            IpAddr::V4(_) => true,
            IpAddr::V6(_) => false,
        }
    }

    /// Whether this is an IPv6 address.
    pub fn is_ipv6(self) -> (r: bool)
        ensures
            r == (self is V6),
    {
        !self.is_ipv4()
    }

    /// Whether this address comes before `other`.
    pub fn before(self, other: IpAddr) -> (r: bool)
        ensures
            r == self.precedes(other),
    {
        match (self, other) {
            (IpAddr::V4(a), IpAddr::V4(b)) => a < b,
            (IpAddr::V4(_), IpAddr::V6(_)) => true,
            (IpAddr::V6(_), IpAddr::V4(_)) => false,
            (IpAddr::V6(a), IpAddr::V6(b)) => a < b,
        }
    }

    /// The written form of the address.
    pub fn to_text(self) -> (s: String)
        ensures
            s@ == self.text(),
    {
        match self {
            IpAddr::V4(b) => v4_string(b),
            IpAddr::V6(b) => v6_string(b),
        }
    }
}

impl SocketAddr {
    /// The written form: the address and the port, with a colon between them;
    /// an IPv6 address stands in square brackets.
    pub open spec fn text(self) -> Seq<char> {
        let port = crate::text::decimal_text(self.port as nat);
        match self.ip {
            IpAddr::V4(_) => self.ip.text().push(':') + port,
            IpAddr::V6(_) => seq!['['] + self.ip.text() + seq![']', ':'] + port,
        }
    }

    /// An address and a port.
    pub fn new(ip: IpAddr, port: u16) -> (r: SocketAddr)
        ensures
            r == (SocketAddr { ip, port }),
    {
        SocketAddr { ip, port }
    }

    /// The written form of the address.
    pub fn to_text(self) -> (s: String)
        ensures
            s@ == self.text(),
    {
        let ip = self.ip.to_text();
        let port = decimal(self.port as u64);
        let mut s = String::new();
        if self.ip.is_ipv4() {
            s.append(ip.as_str());
            s.push(':');
        } else {
            s.push('[');
            s.append(ip.as_str());
            s.push(']');
            s.push(':');
        }
        s.append(port.as_str());
        assert(s@ =~= self.text());
        s
    }
}

/// The eight groups, or the four octets, of an address.
fn digits_of(n: u128, base: u128, count: usize) -> (v: Vec<u64>)
    requires
        1 < base <= 0x1_0000,
    ensures
        v@.len() == count,
        v@.map_values(|d: u64| d as nat) == digits(n as nat, base as nat, count as nat),
    decreases count,
{
    if count == 0 {
        let v: Vec<u64> = Vec::new();
        assert(v@.map_values(|d: u64| d as nat) =~= digits(n as nat, base as nat, 0));
        return v;
    }
    let mut v = digits_of(n / base, base, count - 1);
    let ghost before = v@;
    v.push((n % base) as u64);
    proof {
        assert(v@.map_values(|d: u64| d as nat) =~= before.map_values(|d: u64| d as nat).push(
            n as nat % base as nat,
        ));
    }
    v
}

fn v4_string(bits: u32) -> (s: String)
    ensures
        s@ == v4_text(bits as nat),
{
    let parts = digits_of(bits as u128, 256, 4);
    let ghost all = digits(bits as nat, 256, 4);
    let mut s = String::new();
    let mut i: usize = 0;
    while i < parts.len()
        invariant
            i <= parts@.len(),
            parts@.map_values(|d: u64| d as nat) == all,
            s@ == dotted(all.take(i as int)),
        decreases parts@.len() - i,
    {
        proof {
            assert(all.take(i + 1).drop_last() =~= all.take(i as int));
            assert(all.take(i + 1).last() == parts@[i as int] as nat);
        }
        if i > 0 {
            s.push('.');
        }
        let part = decimal(parts[i]);
        s.append(part.as_str());
        i = i + 1;
    }
    assert(all.take(i as int) =~= all);
    s
}

fn colons_string(parts: &Vec<u64>, from: usize, to: usize) -> (s: String)
    requires
        from <= to <= parts@.len(),
    ensures
        s@ == colons(
            parts@.map_values(|d: u64| d as nat).subrange(from as int, to as int),
        ),
{
    let ghost all = parts@.map_values(|d: u64| d as nat);
    let mut s = String::new();
    let mut i: usize = from;
    while i < to
        invariant
            from <= i <= to <= parts@.len(),
            parts@.map_values(|d: u64| d as nat) == all,
            s@ == colons(all.subrange(from as int, i as int)),
        decreases to - i,
    {
        proof {
            let next = all.subrange(from as int, i + 1);
            assert(next.drop_last() =~= all.subrange(from as int, i as int));
            assert(next.last() == parts@[i as int] as nat);
        }
        if i > from {
            s.push(':');
        }
        let part = hexadecimal(parts[i]);
        s.append(part.as_str());
        i = i + 1;
    }
    s
}

fn zeros_from(parts: &Vec<u64>, i: usize) -> (n: usize)
    requires
        i <= parts@.len(),
    ensures
        n == zero_run(parts@.map_values(|d: u64| d as nat), i as int),
        i + n <= parts@.len(),
    decreases parts@.len() - i,
{
    if i < parts.len() && parts[i] == 0 {
        1 + zeros_from(parts, i + 1)
    } else {
        0
    }
}

fn v6_string(bits: u128) -> (s: String)
    ensures
        s@ == v6_text(bits as nat),
{
    if bits / 0x1_0000_0000 == 0xffff {
        let mut s = String::from_str("::ffff:");
        let low: u128 = bits % 0x1_0000_0000;
        let tail = v4_string(low as u32);
        s.append(tail.as_str());
        return s;
    }
    let parts = digits_of(bits, 0x1_0000, 8);
    let ghost all = digits(bits as nat, 0x1_0000, 8);
    let mut start: usize = 0;
    let mut len: usize = 0;
    let mut i: usize = 0;
    while i < 8
        invariant
            i <= 8,
            parts@.len() == 8,
            parts@.map_values(|d: u64| d as nat) == all,
            longest_zeros(all, i as nat) == (start as int, len as nat),
            start + len <= 8,
        decreases 8 - i,
    {
        let here: usize = zeros_from(&parts, i);
        if here > len {
            start = i;
            len = here;
        }
        i = i + 1;
    }
    if len >= 2 {
        let mut s = colons_string(&parts, 0, start);
        s.append("::");
        let tail = colons_string(&parts, start + len, 8);
        s.append(tail.as_str());
        proof {
            assert(all.subrange(0, start as int) =~= all.take(start as int));
            assert(all.subrange(start + len, 8) =~= all.skip(start + len));
        }
        s
    } else {
        proof {
            assert(all.subrange(0, 8) =~= all);
        }
        colons_string(&parts, 0, 8)
    }
}

/// The number of an IPv4 address with these octets.
pub open spec fn quad(a: u8, b: u8, c: u8, d: u8) -> u32 {
    (a * 0x100_0000 + b * 0x1_0000 + c * 0x100 + d) as u32
}

/// Four numbers with dots between them.
pub open spec fn quad_text(a: u8, b: u8, c: u8, d: u8) -> Seq<char> {
    crate::text::decimal_text(a as nat) + seq!['.'] + crate::text::decimal_text(b as nat) + seq!['.']
        + crate::text::decimal_text(c as nat) + seq!['.'] + crate::text::decimal_text(d as nat)
}

/// An IPv4 address is its four octets, the first in the highest bits, and is
/// written as them in decimal, in order, with dots between them.
pub proof fn an_ipv4_address_is_its_octets(a: u8, b: u8, c: u8, d: u8, ip: IpAddr, s: String)
    requires
        call_ensures(IpAddr::v4, (a, b, c, d), ip),
        call_ensures(IpAddr::to_text, (ip,), s),
    ensures
        ip == IpAddr::V4(quad(a, b, c, d)),
        s@ == quad_text(a, b, c, d),
{
    lemma_quad_text(a, b, c, d);
}

/// Every number of 32 bits is made of four octets.
pub proof fn lemma_octets(x: u32) -> (r: (u8, u8, u8, u8))
    ensures
        quad(r.0, r.1, r.2, r.3) == x,
{
    (
        (x / 0x100_0000) as u8,
        (x / 0x1_0000 % 0x100) as u8,
        (x / 0x100 % 0x100) as u8,
        (x % 0x100) as u8,
    )
}

/// The written form of an address with these octets.
pub proof fn lemma_quad_text(a: u8, b: u8, c: u8, d: u8)
    ensures
        IpAddr::V4(quad(a, b, c, d)).text() == quad_text(a, b, c, d),
{
    let n = quad(a, b, c, d) as nat;
    let all = seq![a as nat, b as nat, c as nat, d as nat];
    reveal_with_fuel(digits, 5);
    assert(n % 256 == d && n / 256 % 256 == c && n / 256 / 256 % 256 == b && n / 256 / 256 / 256
        % 256 == a);
    assert(digits(n, 256, 4) =~= all);
    reveal_with_fuel(dotted, 5);
    assert(all.drop_last() =~= seq![a as nat, b as nat, c as nat]);
    assert(all.drop_last().drop_last() =~= seq![a as nat, b as nat]);
    assert(all.drop_last().drop_last().drop_last() =~= seq![a as nat]);
    assert(dotted(all) =~= quad_text(a, b, c, d));
}

/// An address and a port are written as the two, with a colon between them; an
/// IPv6 address stands in square brackets.
pub proof fn a_socket_address_is_its_two_parts(
    at: SocketAddr,
    s: String,
    ip: String,
    port: String,
)
    requires
        call_ensures(SocketAddr::to_text, (at,), s),
        call_ensures(IpAddr::to_text, (at.ip,), ip),
        call_ensures(decimal, (at.port as u64,), port),
    ensures
        at.ip is V4 ==> s@ == ip@ + seq![':'] + port@,
        at.ip is V6 ==> s@ == seq!['['] + ip@ + seq![']', ':'] + port@,
{
    if at.ip is V4 {
        assert(s@ =~= ip@ + seq![':'] + port@);
    }
}

/// The addresses stand in one order, IPv4 before IPv6.
pub proof fn addresses_are_ordered(
    a: IpAddr,
    b: IpAddr,
    c: IpAddr,
    ab: bool,
    ba: bool,
    bc: bool,
    ac: bool,
)
    requires
        call_ensures(IpAddr::before, (a, b), ab),
        call_ensures(IpAddr::before, (b, a), ba),
        call_ensures(IpAddr::before, (b, c), bc),
        call_ensures(IpAddr::before, (a, c), ac),
    ensures
        !(ab && ba),
        a != b ==> ab || ba,
        ab && bc ==> ac,
        a is V4 && b is V6 ==> ab,
        a is V4 && b is V4 ==> ab == (a->V4_0 < b->V4_0),
        a is V6 && b is V6 ==> ab == (a->V6_0 < b->V6_0),
{
}

/// The number that eight groups of 16 bits make.
pub open spec fn grouped(g: Seq<nat>) -> nat
    decreases g.len(),
{
    if g.len() == 0 {
        0
    } else {
        grouped(g.drop_last()) * 0x1_0000 + g.last()
    }
}

/// Numbers in lower-case hexadecimal, with colons between them.
pub open spec fn hex_joined(g: Seq<nat>) -> Seq<char>
    decreases g.len(),
{
    if g.len() == 0 {
        seq![]
    } else if g.len() == 1 {
        crate::text::hex_text(g[0])
    } else {
        crate::text::hex_text(g[0]) + seq![':'] + hex_joined(g.drop_first())
    }
}

/// Whether zeros stand at `i` and the `n - 1` places behind it.
pub open spec fn zeros_at(g: Seq<nat>, i: int, n: int) -> bool {
    &&& 0 <= i && 0 <= n && i + n <= g.len()
    &&& forall|k: int| i <= k < i + n ==> #[trigger] g[k] == 0
}

/// An IPv6 address is written as its eight groups, in order. The longest run of
/// zero groups, and the first of the longest, gives way to `::` where it has
/// two groups or more. The addresses that hold an IPv4 address behind `::ffff`
/// end in its four octets instead.
pub proof fn an_ipv6_address_is_its_groups(bits: u128, s: String, g: Seq<nat>)
    requires
        call_ensures(IpAddr::to_text, (IpAddr::V6(bits),), s),
        g.len() == 8,
        forall|i: int| 0 <= i < 8 ==> #[trigger] g[i] < 0x1_0000,
        grouped(g) == bits,
    ensures
        0xffff_0000_0000 <= bits <= 0xffff_ffff_ffff ==> s@ == "::ffff:"@ + IpAddr::V4(
            (bits - 0xffff_0000_0000) as u32,
        ).text(),
        !(0xffff_0000_0000 <= bits <= 0xffff_ffff_ffff) ==> {
            ||| {
                &&& s@ == hex_joined(g)
                &&& forall|i: int| 0 <= i < 7 ==> !(#[trigger] g[i] == 0 && g[i + 1] == 0)
            }
            ||| exists|i: int, n: int|
                {
                    &&& n >= 2
                    &&& #[trigger] zeros_at(g, i, n)
                    &&& forall|j: int, m: int| #[trigger] zeros_at(g, j, m) ==> m <= n && (m == n ==> i <= j)
                    &&& s@ == hex_joined(g.take(i)) + "::"@ + hex_joined(g.skip(i + n))
                }
        },
{
    lemma_groups(g);
    assert(digits(bits as nat, 0x1_0000, 8) == g);
    let run = longest_zeros(g, 8);
    lemma_longest(g, 8);
    lemma_colons(g);
    if !(0xffff_0000_0000 <= bits <= 0xffff_ffff_ffff) {
        assert(bits / 0x1_0000_0000 != 0xffff);
        if run.1 >= 2 {
            lemma_colons(g.take(run.0));
            lemma_colons(g.skip(run.0 + run.1));
            assert(zeros_at(g, run.0, run.1 as int));
            assert forall|j: int, m: int| #[trigger] zeros_at(g, j, m) implies m <= run.1 && (m
                == run.1 ==> run.0 <= j) by {
                if m > 0 {
                    lemma_run(g, j, m);
                }
            }
        } else {
            assert forall|i: int| 0 <= i < 7 implies !(#[trigger] g[i] == 0 && g[i + 1] == 0) by {
                if g[i] == 0 && g[i + 1] == 0 {
                    lemma_run(g, i, 2);
                }
            }
        }
    }
}

proof fn lemma_groups(g: Seq<nat>)
    requires
        forall|i: int| 0 <= i < g.len() ==> #[trigger] g[i] < 0x1_0000,
    ensures
        digits(grouped(g), 0x1_0000, g.len()) == g,
    decreases g.len(),
{
    if g.len() > 0 {
        let init = g.drop_last();
        assert forall|i: int| 0 <= i < init.len() implies #[trigger] init[i] < 0x1_0000 by {
            assert(init[i] == g[i]);
        }
        lemma_groups(init);
        assert(g[g.len() - 1] < 0x1_0000);
        assert(digits(grouped(g), 0x1_0000, g.len()) =~= init.push(g.last()));
        assert(init.push(g.last()) =~= g);
    } else {
        assert(digits(grouped(g), 0x1_0000, 0) =~= g);
    }
}

proof fn lemma_colons(g: Seq<nat>)
    ensures
        colons(g) == hex_joined(g),
    decreases g.len(),
{
    if g.len() >= 2 {
        lemma_colons_front(g);
        lemma_colons(g.drop_first());
    }
}

proof fn lemma_colons_front(g: Seq<nat>)
    requires
        g.len() >= 2,
    ensures
        colons(g) == crate::text::hex_text(g[0]) + seq![':'] + colons(g.drop_first()),
    decreases g.len(),
{
    let init = g.drop_last();
    if g.len() == 2 {
        reveal_with_fuel(colons, 3);
        assert(init =~= seq![g[0]]);
        assert(g.drop_first() =~= seq![g[1]]);
        assert(colons(g) =~= crate::text::hex_text(g[0]) + seq![':'] + colons(g.drop_first()));
    } else {
        lemma_colons_front(init);
        let tail = g.drop_first();
        assert(tail.drop_last() =~= init.drop_first());
        assert(colons(g) =~= crate::text::hex_text(g[0]) + seq![':'] + colons(tail));
    }
}

/// A run of zeros is no longer than the one that starts in its place.
proof fn lemma_run(g: Seq<nat>, j: int, m: int)
    requires
        zeros_at(g, j, m),
        m > 0,
    ensures
        zero_run(g, j) >= m,
    decreases m,
{
    assert(g[j] == 0);
    if m > 1 {
        assert(zeros_at(g, j + 1, m - 1));
        lemma_run(g, j + 1, m - 1);
    }
}

proof fn lemma_zero_run(g: Seq<nat>, i: int)
    requires
        0 <= i,
    ensures
        i <= g.len() ==> zeros_at(g, i, zero_run(g, i) as int),
    decreases g.len() - i,
{
    if i < g.len() && g[i] == 0 {
        lemma_zero_run(g, i + 1);
    }
}

proof fn lemma_longest(g: Seq<nat>, n: nat)
    requires
        n <= g.len(),
    ensures
        ({
            let run = longest_zeros(g, n);
            &&& zeros_at(g, run.0, run.1 as int)
            &&& run.0 < n || run.0 == 0
            &&& forall|j: int| 0 <= j < n ==> #[trigger] zero_run(g, j) <= run.1
            &&& forall|j: int| 0 <= j < n && #[trigger] zero_run(g, j) == run.1 ==> run.0 <= j
        }),
    decreases n,
{
    if n > 0 {
        lemma_longest(g, (n - 1) as nat);
        lemma_zero_run(g, n - 1);
    }
}

} // verus!

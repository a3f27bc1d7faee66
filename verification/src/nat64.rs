//! Deciding whether this node is behind NAT64, and finding the prefix if it is.
//!
//! Synthesis is not free to apply speculatively: a host that has working IPv4
//! and a translator would send every IPv4 flow through the translator. So the
//! automatic mode passes two gates before it asks. The datapath socket must be
//! IPv6, because an IPv4 socket cannot send to an IPv6 address at all; and the
//! host must have no IPv4 address of its own. A configured prefix skips the
//! second gate and not the first.
//!
//! Discovery asks for the AAAA records of `ipv4only.arpa`, which has none of
//! its own: an answer can only have been synthesised.

use crate::addr::{lemma_octets, lemma_quad_text, quad, quad_text, IpAddr, SocketAddr};
use crate::random::random_bytes;
use crate::text::{
    before_char, begins_with, chars_of, decimal_text, digit_worth, find_from, find_last,
    first_index, first_word, has_prefix, is_white, last_index, leading_word, lemma_decimal,
    lemma_numeral, lines, numeral_worth, same, split_lines, string_of, texts, trim, trimmed,
};
use vstd::prelude::*;

verus! {

/// The name whose addresses give a NAT64 away.
pub const IPV4ONLY_ARPA: &'static str = "ipv4only.arpa";

/// The bytes of an IPv6 address that an IPv4 address is embedded in: a prefix
/// of one of the lengths that RFC 6052 allows.
#[derive(Clone, Copy, Debug, PartialEq, Eq, Structural)]
pub struct Nat64Prefix {
    pub bits: u128,
    pub len: u8,
}

/// Two to the power of the number of bits that a prefix of `len` leaves free,
/// for the lengths that RFC 6052 allows; zero for others.
pub open spec fn free_range(len: u8) -> nat {
    if len == 32 {
        0x1_0000_0000_0000_0000_0000_0000
    } else if len == 40 {
        0x100_0000_0000_0000_0000_0000
    } else if len == 48 {
        0x1_0000_0000_0000_0000_0000
    } else if len == 56 {
        0x100_0000_0000_0000_0000
    } else if len == 64 {
        0x1_0000_0000_0000_0000
    } else if len == 96 {
        0x1_0000_0000
    } else {
        0
    }
}

/// Where the bits of an IPv4 address stand behind a prefix of `len`. Bits 64 to
/// 71 of the address stay zero.
pub open spec fn embedded(v4: nat, len: u8) -> nat {
    if len == 32 {
        v4 * 0x1_0000_0000_0000_0000
    } else if len == 40 {
        v4 / 0x100 * 0x1_0000_0000_0000_0000 + v4 % 0x100 * 0x1_0000_0000_0000
    } else if len == 48 {
        v4 / 0x1_0000 * 0x1_0000_0000_0000_0000 + v4 % 0x1_0000 * 0x100_0000_0000
    } else if len == 56 {
        v4 / 0x100_0000 * 0x1_0000_0000_0000_0000 + v4 % 0x100_0000 * 0x1_0000_0000
    } else if len == 64 {
        v4 * 0x100_0000
    } else {
        v4
    }
}

impl Nat64Prefix {
    /// The length is one that RFC 6052 allows, and the bits after it are zero.
    pub open spec fn wf(self) -> bool {
        free_range(self.len) > 0 && self.bits as nat % free_range(self.len) == 0
    }

    /// The IPv6 address that stands for an IPv4 address.
    pub open spec fn synthesised(self, v4: u32) -> IpAddr {
        IpAddr::V6((self.bits + embedded(v4 as nat, self.len)) as u128)
    }

    /// The prefix with these bits; `None` when RFC 6052 does not allow the
    /// length, or bits are set after it.
    pub fn new(bits: u128, len: u8) -> (r: Option<Nat64Prefix>)
        ensures
            r == (if (Nat64Prefix { bits, len }).wf() {
                Some(Nat64Prefix { bits, len })
            } else {
                None
            }),
    {
        let free: u128 = if len == 32 {
            0x1_0000_0000_0000_0000_0000_0000
        } else if len == 40 {
            0x100_0000_0000_0000_0000_0000
        } else if len == 48 {
            0x1_0000_0000_0000_0000_0000
        } else if len == 56 {
            0x100_0000_0000_0000_0000
        } else if len == 64 {
            0x1_0000_0000_0000_0000
        } else if len == 96 {
            0x1_0000_0000
        } else {
            return None;
        };
        if bits % free == 0 {
            Some(Nat64Prefix { bits, len })
        } else {
            None
        }
    }

    /// The well-known prefix, `64:ff9b::/96`.
    pub fn well_known() -> (r: Nat64Prefix)
        ensures
            r.wf(),
            r.len == 96,
            r.bits == 0x64_ff9b_0000_0000_0000_0000_0000_0000,
    {
        proof {
            vstd::arithmetic::div_mod::lemma_mod_multiples_basic(
                0x64_ff9b_0000_0000_0000_0000,
                0x1_0000_0000,
            );
        }
        Nat64Prefix { bits: 0x64_ff9b_0000_0000_0000_0000_0000_0000, len: 96 }
    }

    /// The IPv6 address that stands for an IPv4 address.
    pub fn synthesise(self, v4: u32) -> (r: IpAddr)
        requires
            self.wf(),
        ensures
            r == self.synthesised(v4),
            embedded(v4 as nat, self.len) < free_range(self.len),
            self.bits + embedded(v4 as nat, self.len) <= u128::MAX,
    {
        let v: u128 = v4 as u128;
        let part: u128 = if self.len == 32 {
            v * 0x1_0000_0000_0000_0000
        } else if self.len == 40 {
            v / 0x100 * 0x1_0000_0000_0000_0000 + v % 0x100 * 0x1_0000_0000_0000
        } else if self.len == 48 {
            v / 0x1_0000 * 0x1_0000_0000_0000_0000 + v % 0x1_0000 * 0x100_0000_0000
        } else if self.len == 56 {
            v / 0x100_0000 * 0x1_0000_0000_0000_0000 + v % 0x100_0000 * 0x1_0000_0000
        } else if self.len == 64 {
            v * 0x100_0000
        } else {
            v
        };
        IpAddr::V6(self.bits + part)
    }
}

/// The IPv4 addresses of `ipv4only.arpa`: 192.0.0.170 and 192.0.0.171.
pub const WKA: u32 = 0xc000_00aa;

pub const SECOND_WKA: u32 = 0xc000_00ab;

/// The prefix of `len` with which an address was synthesised for
/// `ipv4only.arpa`, if it was.
pub open spec fn synthesised_with(addr: IpAddr, len: u8) -> Option<Nat64Prefix> {
    match addr {
        IpAddr::V4(_) => None,
        IpAddr::V6(a) => {
            let p = Nat64Prefix { bits: (a - a as nat % free_range(len)) as u128, len };
            if p.synthesised(WKA) == addr || p.synthesised(SECOND_WKA) == addr {
                Some(p)
            } else {
                None
            }
        },
    }
}

/// The prefix that an answer for `ipv4only.arpa` gives away: that of the longest
/// length under which it was synthesised.
pub open spec fn given_away(addr: IpAddr) -> Option<Nat64Prefix> {
    if synthesised_with(addr, 96) is Some {
        synthesised_with(addr, 96)
    } else if synthesised_with(addr, 64) is Some {
        synthesised_with(addr, 64)
    } else if synthesised_with(addr, 56) is Some {
        synthesised_with(addr, 56)
    } else if synthesised_with(addr, 48) is Some {
        synthesised_with(addr, 48)
    } else if synthesised_with(addr, 40) is Some {
        synthesised_with(addr, 40)
    } else {
        synthesised_with(addr, 32)
    }
}

/// The prefix of `len`, which leaves `free` values, with which an address was
/// synthesised for `ipv4only.arpa`.
fn recognise(addr: IpAddr, len: u8, free: u128) -> (r: Option<Nat64Prefix>)
    requires
        free > 0,
        free == free_range(len),
    ensures
        r == synthesised_with(addr, len),
        r is Some ==> r->0.wf(),
{
    match addr {
        IpAddr::V4(_) => None,
        IpAddr::V6(a) => {
            let p = Nat64Prefix { bits: a - a % free, len };
            proof {
                vstd::arithmetic::div_mod::lemma_fundamental_div_mod(a as int, free as int);
                vstd::arithmetic::div_mod::lemma_mod_multiples_basic(
                    a as int / free as int,
                    free as int,
                );
                vstd::arithmetic::mul::lemma_mul_is_commutative(
                    a as int / free as int,
                    free as int,
                );
            }
            if p.synthesise(WKA) == addr || p.synthesise(SECOND_WKA) == addr {
                Some(p)
            } else {
                None
            }
        },
    }
}

impl Nat64Prefix {
    /// The prefix that an answer for `ipv4only.arpa` gives away, if it was
    /// synthesised.
    pub fn from_ipv4only_arpa(addr: IpAddr) -> (r: Option<Nat64Prefix>)
        ensures
            r == given_away(addr),
            r is Some ==> r->0.wf(),
    {
        if let Some(p) = recognise(addr, 96, 0x1_0000_0000) {
            return Some(p);
        }
        if let Some(p) = recognise(addr, 64, 0x1_0000_0000_0000_0000) {
            return Some(p);
        }
        if let Some(p) = recognise(addr, 56, 0x100_0000_0000_0000_0000) {
            return Some(p);
        }
        if let Some(p) = recognise(addr, 48, 0x1_0000_0000_0000_0000_0000) {
            return Some(p);
        }
        if let Some(p) = recognise(addr, 40, 0x100_0000_0000_0000_0000_0000) {
            return Some(p);
        }
        recognise(addr, 32, 0x1_0000_0000_0000_0000_0000_0000)
    }
}

/// A multiple of a wide range does not show in a narrower range that divides it.
proof fn lemma_behind(bits: int, low: int, wide: int, narrow: int, ratio: int)
    requires
        narrow > 0,
        wide == narrow * ratio,
        wide > 0,
        bits % wide == 0,
    ensures
        (bits + low) % narrow == low % narrow,
{
    let q = bits / wide;
    vstd::arithmetic::div_mod::lemma_fundamental_div_mod(bits, wide);
    assert(wide * q == narrow * (ratio * q)) by (nonlinear_arith)
        requires
            wide == narrow * ratio,
    ;
    vstd::arithmetic::div_mod::lemma_mod_multiples_vanish(ratio * q, low, narrow);
}

/// What stands in front of a range of an address leaves room for the range.
proof fn lemma_room(a: u128, free: int, ratio: int)
    requires
        free > 0,
        free * ratio == u128::MAX + 1,
    ensures
        0 <= a - a as int % free,
        a - a as int % free + free <= u128::MAX + 1,
{
    let q = a as int / free;
    vstd::arithmetic::div_mod::lemma_fundamental_div_mod(a as int, free);
    assert(q < ratio && 0 <= q) by (nonlinear_arith)
        requires
            free > 0,
            free * ratio == u128::MAX + 1,
            a as int == free * q + a as int % free,
            0 <= a as int % free < free,
            0 <= a <= u128::MAX,
    ;
    assert(free * q + free <= free * ratio && 0 <= free * q) by (nonlinear_arith)
        requires
            free > 0,
            0 <= q,
            q + 1 <= ratio,
    ;
}

/// The range of a length, and how often it fits into an address.
proof fn lemma_range(len: u8) -> (ratio: int)
    requires
        free_range(len) > 0,
    ensures
        free_range(len) * ratio == u128::MAX + 1,
        embedded(WKA as nat, len) < free_range(len),
        embedded(SECOND_WKA as nat, len) < free_range(len),
{
    if len == 32 {
        0x1_0000_0000
    } else if len == 40 {
        0x100_0000_0000
    } else if len == 48 {
        0x1_0000_0000_0000
    } else if len == 56 {
        0x100_0000_0000_0000
    } else if len == 64 {
        0x1_0000_0000_0000_0000
    } else {
        0x1_0000_0000_0000_0000_0000_0000
    }
}

/// An address whose low bits are those of neither synthesised answer was not
/// synthesised under that length.
proof fn lemma_not_under(a: u128, len: u8)
    requires
        free_range(len) > 0,
        a as nat % free_range(len) != embedded(WKA as nat, len),
        a as nat % free_range(len) != embedded(SECOND_WKA as nat, len),
    ensures
        synthesised_with(IpAddr::V6(a), len) is None,
{
    let ratio = lemma_range(len);
    lemma_room(a, free_range(len) as int, ratio);
}

/// An address whose low bits are those of a synthesised answer was synthesised
/// under that length, with the prefix in front of them.
proof fn lemma_under(p: Nat64Prefix, v4: u32)
    requires
        p.wf(),
        v4 == WKA || v4 == SECOND_WKA,
    ensures
        p.bits + embedded(v4 as nat, p.len) <= u128::MAX,
        synthesised_with(p.synthesised(v4), p.len) == Some(p),
{
    let free = free_range(p.len) as int;
    let low = embedded(v4 as nat, p.len) as int;
    let ratio = lemma_range(p.len);
    lemma_room(p.bits, free, ratio);
    lemma_behind(p.bits as int, low, free, free, 1);
    vstd::arithmetic::div_mod::lemma_small_mod(low as nat, free as nat);
    lemma_room((p.bits + low) as u128, free, ratio);
}

/// Behind a prefix of `short`, a synthesised answer does not look like one under
/// the longer `len`. Returns how often the range of the longer length fits into
/// that of the shorter.
proof fn lemma_shapes(v4: u32, short: u8, len: u8) -> (ratio: int)
    requires
        v4 == WKA || v4 == SECOND_WKA,
        free_range(short) > 0,
        free_range(len) > 0,
        short < len,
    ensures
        free_range(short) == free_range(len) * ratio,
        embedded(v4 as nat, short) % free_range(len) != embedded(WKA as nat, len),
        embedded(v4 as nat, short) % free_range(len) != embedded(SECOND_WKA as nat, len),
{
    if len == 96 {
        if short == 32 {
            0x1_0000_0000_0000_0000
        } else if short == 40 {
            0x100_0000_0000_0000
        } else if short == 48 {
            0x1_0000_0000_0000
        } else if short == 56 {
            0x100_0000_0000
        } else {
            0x1_0000_0000
        }
    } else if len == 64 {
        if short == 32 {
            0x1_0000_0000
        } else if short == 40 {
            0x100_0000
        } else if short == 48 {
            0x1_0000
        } else {
            0x100
        }
    } else if len == 56 {
        if short == 32 {
            0x100_0000
        } else if short == 40 {
            0x1_0000
        } else {
            0x100
        }
    } else if len == 48 {
        if short == 32 {
            0x1_0000
        } else {
            0x100
        }
    } else {
        0x100
    }
}

/// Under a longer length than its prefix's, a synthesised answer is none.
proof fn lemma_no_longer(p: Nat64Prefix, v4: u32, len: u8)
    requires
        p.wf(),
        v4 == WKA || v4 == SECOND_WKA,
        free_range(len) > 0,
        p.len < len,
    ensures
        synthesised_with(p.synthesised(v4), len) is None,
{
    lemma_under(p, v4);
    let ratio = lemma_shapes(v4, p.len, len);
    let low = embedded(v4 as nat, p.len) as int;
    lemma_behind(p.bits as int, low, free_range(p.len) as int, free_range(len) as int, ratio);
    lemma_not_under((p.bits + low) as u128, len);
}

/// An answer that was synthesised with a prefix of any length, for either
/// address of `ipv4only.arpa`, gives exactly that prefix away: what stands
/// behind the prefix looks like an answer under no longer length.
pub proof fn a_synthesised_answer_gives_its_prefix_away(p: Nat64Prefix, v4: u32)
    requires
        p.wf(),
        v4 == WKA || v4 == SECOND_WKA,
    ensures
        given_away(p.synthesised(v4)) == Some(p),
{
    lemma_under(p, v4);
    if p.len < 96 {
        lemma_no_longer(p, v4, 96);
    }
    if p.len < 64 {
        lemma_no_longer(p, v4, 64);
    }
    if p.len < 56 {
        lemma_no_longer(p, v4, 56);
    }
    if p.len < 48 {
        lemma_no_longer(p, v4, 48);
    }
    if p.len < 40 {
        lemma_no_longer(p, v4, 40);
    }
}

/// What the operator asked for.
#[derive(Clone, Copy, Debug, PartialEq, Eq, Structural)]
pub enum Mode {
    /// Never synthesise.
    Off,
    /// Use the prefix only where it is needed, and discover it.
    Auto,
    /// This exact prefix, whatever the host looks like.
    Fixed(Nat64Prefix),
}

impl Default for Mode {
    fn default() -> (m: Mode)
        ensures
            m == Mode::Auto,
    {
        Mode::Auto
    }
}

impl Mode {
    /// The setting that `s` spells: `off`, `false`, `auto`, or a prefix, which
    /// is given when the text is one.
    pub fn from_text(s: &str, prefix: Option<Nat64Prefix>) -> (r: Option<Mode>)
        ensures
            r == (if s@ == "off"@ || s@ == "false"@ {
                Some(Mode::Off)
            } else if s@ == "auto"@ {
                Some(Mode::Auto)
            } else {
                match prefix {
                    Some(p) => Some(Mode::Fixed(p)),
                    None => None,
                }
            }),
    {
        if same(s, "off") || same(s, "false") {
            Some(Mode::Off)
        } else if same(s, "auto") {
            Some(Mode::Auto)
        } else {
            match prefix {
                Some(p) => Some(Mode::Fixed(p)),
                None => None,
            }
        }
    }
}

/// Whether an address is an IPv4 address that a host could send from: loopback
/// and the unspecified address do not count.
pub open spec fn usable_v4(ip: IpAddr) -> bool {
    match ip {
        IpAddr::V4(b) => b != 0 && b / 0x100_0000 != 127,
        IpAddr::V6(_) => false,
    }
}

/// Whether one of the addresses is an IPv4 address that a host could send from.
pub open spec fn holds_usable(addresses: Seq<IpAddr>) -> bool {
    exists|i: int| 0 <= i < addresses.len() && usable_v4(#[trigger] addresses[i])
}

/// Whether this host holds an IPv4 address it could send from.
pub fn has_ipv4(addresses: &Vec<IpAddr>) -> (r: bool)
    ensures
        r == holds_usable(addresses@),
        r == exists|i: int| 0 <= i < addresses@.len() && usable_v4(#[trigger] addresses@[i]),
{
    let mut i: usize = 0;
    while i < addresses.len()
        invariant
            i <= addresses@.len(),
            forall|j: int| 0 <= j < i ==> !usable_v4(#[trigger] addresses@[j]),
        decreases addresses@.len() - i,
    {
        if let IpAddr::V4(b) = addresses[i] {
            if b != 0 && b / 0x100_0000 != 127 {
                assert(usable_v4(addresses@[i as int]));
                return true;
            }
        }
        i = i + 1;
    }
    false
}

/// Whether discovery is to be tried at all.
pub fn discovers(mode: Mode, listen: SocketAddr, has_ipv4: bool) -> (r: bool)
    ensures
        r == (mode is Auto && listen.ip is V6 && !has_ipv4),
{
    match mode {
        Mode::Auto => listen.ip.is_ipv6() && !has_ipv4,
        _ => false,
    }
}

/// The prefix this node synthesises through, if any.
pub open spec fn resolved(
    mode: Mode,
    listen: SocketAddr,
    has_ipv4: bool,
    discovered: Option<Nat64Prefix>,
) -> Option<Nat64Prefix> {
    if listen.ip is V4 {
        None
    } else {
        match mode {
            Mode::Off => None,
            Mode::Fixed(prefix) => Some(prefix),
            Mode::Auto => if has_ipv4 {
                None
            } else {
                discovered
            },
        }
    }
}

/// The prefix this node synthesises through, if any.
pub fn resolve(
    mode: Mode,
    listen: SocketAddr,
    has_ipv4: bool,
    discovered: Option<Nat64Prefix>,
) -> (r: Option<Nat64Prefix>)
    ensures
        r == resolved(mode, listen, has_ipv4, discovered),
{
    match mode {
        Mode::Off => None,
        Mode::Fixed(prefix) => if listen.ip.is_ipv6() {
            Some(prefix)
        } else {
            None
        },
        Mode::Auto => if discovers(mode, listen, has_ipv4) {
            discovered
        } else {
            None
        },
    }
}

/// A host with IPv4 of its own is never sent through a translator that nobody
/// configured, and no prefix is ever used on an IPv4 datapath.
pub proof fn synthesis_is_gated(
    mode: Mode,
    listen: SocketAddr,
    has_ipv4: bool,
    discovered: Option<Nat64Prefix>,
)
    requires
        resolved(mode, listen, has_ipv4, discovered) is Some,
    ensures
        listen.ip is V6,
        mode !is Off,
        mode is Auto ==> !has_ipv4,
{
}

/// The value of a decimal digit.
pub open spec fn digit_value(c: char) -> Option<nat> {
    if '0' <= c <= '9' {
        Some((c as u32 - '0' as u32) as nat)
    } else {
        None
    }
}

/// The value of a run of decimal digits; `None` for anything else, the empty
/// text among it.
pub open spec fn number(s: Seq<char>) -> Option<nat>
    decreases s.len(),
{
    if s.len() == 0 {
        None
    } else {
        match digit_value(s.last()) {
            None => None,
            Some(d) => if s.len() == 1 {
                Some(d)
            } else {
                match number(s.drop_last()) {
                    Some(n) => Some(10 * n + d),
                    None => None,
                }
            },
        }
    }
}

/// One octet of a dotted address: up to three digits, no leading zero.
pub open spec fn octet(s: Seq<char>) -> Option<nat> {
    match number(s) {
        Some(n) => if s.len() <= 3 && n <= 255 && (s.len() > 1 ==> s[0] != '0') {
            Some(n)
        } else {
            None
        },
        None => None,
    }
}

/// The number whose base-256 digits are `count` octets with dots between them.
pub open spec fn dotted_value(s: Seq<char>, count: nat) -> Option<nat>
    decreases count,
{
    if count <= 1 {
        octet(s)
    } else {
        let k = last_index(s, '.');
        if k < 0 {
            None
        } else {
            match (dotted_value(s.take(k), (count - 1) as nat), octet(s.skip(k + 1))) {
                (Some(high), Some(low)) => Some(256 * high + low),
                _ => None,
            }
        }
    }
}

/// The IPv4 address that `s` spells.
pub open spec fn v4_value(s: Seq<char>) -> Option<nat> {
    dotted_value(s, 4)
}

/// The port that `s` spells.
pub open spec fn port_value(s: Seq<char>) -> Option<nat> {
    match number(s) {
        Some(n) => if n <= 65535 {
            Some(n)
        } else {
            None
        },
        None => None,
    }
}

/// The IPv4 address and port that `s` spells.
pub open spec fn v4_socket(s: Seq<char>) -> Option<(nat, nat)> {
    let k = first_index(s, ':');
    if k >= s.len() {
        None
    } else {
        match (v4_value(s.take(k)), port_value(s.skip(k + 1))) {
            (Some(ip), Some(port)) => Some((ip, port)),
            _ => None,
        }
    }
}

/// The value of a run of digits that does not exceed `max`.
fn parse_number(s: &Vec<char>, max: u64) -> (r: Option<u64>)
    requires
        max <= 0xffff_ffff,
    ensures
        match number(s@) {
            Some(n) => if n <= max {
                r is Some && r->0 == n
            } else {
                r is None
            },
            None => r is None,
        },
{
    if s.len() == 0 {
        return None;
    }
    let mut value: u64 = 0;
    let mut over = false;
    let mut i: usize = 0;
    while i < s.len()
        invariant
            i <= s@.len(),
            max <= 0xffff_ffff,
            i == 0 ==> value == 0 && !over,
            i > 0 ==> number(s@.take(i as int)) is Some,
            i > 0 && !over ==> value == number(s@.take(i as int))->0 && value <= max,
            i > 0 && over ==> number(s@.take(i as int))->0 > max,
        decreases s@.len() - i,
    {
        let c = s[i];
        let ghost upto = s@.take(i + 1);
        proof {
            assert(upto.drop_last() =~= s@.take(i as int));
            assert(upto.last() == c);
        }
        if !('0' <= c && c <= '9') {
            proof {
                lemma_number_digits(s@, i as int);
            }
            return None;
        }
        let d: u64 = (c as u32 - 48) as u64;
        if !over {
            value = 10 * value + d;
            if value > max {
                over = true;
                value = 0;
            }
        }
        i = i + 1;
    }
    assert(s@.take(i as int) =~= s@);
    if over {
        None
    } else {
        Some(value)
    }
}

proof fn lemma_number_digits(s: Seq<char>, i: int)
    requires
        0 <= i < s.len(),
        digit_value(s[i]) is None,
    ensures
        number(s) is None,
    decreases s.len(),
{
    if i < s.len() - 1 {
        lemma_number_digits(s.drop_last(), i);
    }
}

fn parse_octet(s: &Vec<char>) -> (r: Option<u64>)
    ensures
        match octet(s@) {
            Some(n) => r is Some && r->0 == n && r->0 <= 255,
            None => r is None,
        },
{
    if s.len() > 3 {
        return None;
    }
    match parse_number(s, 255) {
        Some(n) => if s.len() > 1 && s[0] == '0' {
            None
        } else {
            Some(n)
        },
        None => None,
    }
}

fn part_of(s: &Vec<char>, from: usize, to: usize) -> (r: Vec<char>)
    requires
        from <= to <= s@.len(),
    ensures
        r@ == s@.subrange(from as int, to as int),
{
    let mut r: Vec<char> = Vec::new();
    let mut i: usize = from;
    while i < to
        invariant
            from <= i <= to <= s@.len(),
            r@ == s@.subrange(from as int, i as int),
        decreases to - i,
    {
        r.push(s[i]);
        i = i + 1;
    }
    r
}

fn parse_dotted(s: &Vec<char>, count: u64) -> (r: Option<u64>)
    requires
        1 <= count <= 4,
    ensures
        match dotted_value(s@, count as nat) {
            Some(n) => r is Some && r->0 == n,
            None => r is None,
        },
        r is Some && count == 1 ==> r->0 < 0x100,
        r is Some && count == 2 ==> r->0 < 0x1_0000,
        r is Some && count == 3 ==> r->0 < 0x100_0000,
        r is Some && count == 4 ==> r->0 < 0x1_0000_0000,
    decreases count,
{
    if count == 1 {
        return parse_octet(s);
    }
    let k: usize = match find_last(s, '.') {
        Some(k) => k,
        None => {
            return None;
        },
    };
    let end: usize = s.len();
    let head = part_of(s, 0, k);
    let tail = part_of(s, k + 1, end);
    proof {
        assert(head@ =~= s@.take(k as int));
        assert(tail@ =~= s@.skip(k + 1));
    }
    match (parse_dotted(&head, count - 1), parse_octet(&tail)) {
        (Some(high), Some(low)) => Some(256 * high + low),
        _ => None,
    }
}

/// The IPv4 address that `s` spells.
fn parse_v4(s: &Vec<char>) -> (r: Option<u32>)
    ensures
        match v4_value(s@) {
            Some(n) => r is Some && r->0 == n,
            None => r is None,
        },
{
    match parse_dotted(s, 4) {
        Some(n) => Some(n as u32),
        None => None,
    }
}

/// The IPv4 address and port that `s` spells.
fn parse_v4_socket(s: &Vec<char>) -> (r: Option<(u32, u16)>)
    ensures
        match v4_socket(s@) {
            Some((ip, port)) => r is Some && (r->0).0 == ip && (r->0).1 == port,
            None => r is None,
        },
{
    let k: usize = find_from(s, 0, ':');
    assert(s@.skip(0) =~= s@);
    if k >= s.len() {
        return None;
    }
    let head = part_of(s, 0, k);
    let tail = part_of(s, k + 1, s.len());
    proof {
        assert(head@ =~= s@.take(k as int));
        assert(tail@ =~= s@.skip(k + 1));
    }
    match (parse_v4(&head), parse_number(&tail, 65535)) {
        (Some(ip), Some(port)) => Some((ip, port as u16)),
        _ => None,
    }
}

/// A `host:port` as this node can reach it: an IPv4 literal is synthesised, and
/// everything else is left alone.
pub open spec fn authority_text(prefix: Option<Nat64Prefix>, address: Seq<char>) -> Seq<char> {
    match (prefix, v4_socket(address)) {
        (Some(p), Some((ip, port))) => (SocketAddr {
            ip: p.synthesised(ip as u32),
            port: port as u16,
        }).text(),
        _ => address,
    }
}

/// Rewrites a `host:port` so that this node can reach it. A name is left alone:
/// a resolver that synthesises does so for names.
pub fn rewrite_authority(prefix: Option<Nat64Prefix>, address: &str) -> (r: String)
    requires
        prefix is Some ==> prefix->0.wf(),
    ensures
        r@ == authority_text(prefix, address@),
{
    match prefix {
        None => String::from_str(address),
        Some(p) => {
            let chars = chars_of(address);
            match parse_v4_socket(&chars) {
                Some((ip, port)) => {
                    let addr = SocketAddr { ip: p.synthesise(ip), port };
                    addr.to_text()
                },
                None => String::from_str(address),
            }
        },
    }
}

/// Where `://` first stands in `s`; the length of `s` when it does not.
pub open spec fn scheme_end(s: Seq<char>) -> int
    decreases s.len(),
{
    if s.len() == 0 {
        0
    } else if s.len() >= 3 && s[0] == ':' && s[1] == '/' && s[2] == '/' {
        0
    } else {
        1 + scheme_end(s.drop_first())
    }
}

/// Whether `c` ends the authority of a URL.
pub open spec fn ends_authority(c: char) -> bool {
    c == '/' || c == '?' || c == '#'
}

/// Where the authority that `s` starts with ends.
pub open spec fn authority_end(s: Seq<char>) -> int
    decreases s.len(),
{
    if s.len() == 0 || ends_authority(s[0]) {
        0
    } else {
        1 + authority_end(s.drop_first())
    }
}

/// A URL as this node can reach it: an IPv4 literal host is synthesised and
/// bracketed; scheme, port, path, and query are kept.
pub open spec fn url_text(prefix: Option<Nat64Prefix>, url: Seq<char>) -> Seq<char> {
    match prefix {
        None => url,
        Some(p) => {
            let at = scheme_end(url);
            if at >= url.len() {
                url
            } else {
                let scheme = url.take(at);
                let rest = url.skip(at + 3);
                let end = authority_end(rest);
                let authority = rest.take(end);
                let tail = rest.skip(end);
                let colon = last_index(authority, ':');
                let host = if colon < 0 {
                    authority
                } else {
                    authority.take(colon)
                };
                match v4_value(host) {
                    Some(v4) => scheme + "://["@ + p.synthesised(v4 as u32).text() + "]"@
                        + authority.skip(host.len() as int) + tail,
                    None => url,
                }
            }
        },
    }
}

fn find_scheme_end(s: &Vec<char>) -> (at: usize)
    ensures
        at == scheme_end(s@),
        at <= s@.len(),
        at < s@.len() ==> at + 3 <= s@.len(),
{
    let mut at: usize = 0;
    assert(s@.skip(0) =~= s@);
    while at < s.len()
        invariant
            at <= s@.len(),
            scheme_end(s@) == at + scheme_end(s@.skip(at as int)),
        decreases s@.len() - at,
    {
        if s.len() - at >= 3 && s[at] == ':' && s[at + 1] == '/' && s[at + 2] == '/' {
            return at;
        }
        assert(s@.skip(at as int).drop_first() =~= s@.skip(at + 1));
        at = at + 1;
    }
    at
}

fn find_authority_end(s: &Vec<char>) -> (at: usize)
    ensures
        at == authority_end(s@),
        at <= s@.len(),
{
    let mut at: usize = 0;
    assert(s@.skip(0) =~= s@);
    while at < s.len() && s[at] != '/' && s[at] != '?' && s[at] != '#'
        invariant
            at <= s@.len(),
            authority_end(s@) == at + authority_end(s@.skip(at as int)),
        decreases s@.len() - at,
    {
        assert(s@.skip(at as int).drop_first() =~= s@.skip(at + 1));
        at = at + 1;
    }
    at
}

/// Rewrites a URL so that this node can reach the host it names.
pub fn rewrite_url(prefix: Option<Nat64Prefix>, url: &str) -> (r: String)
    requires
        prefix is Some ==> prefix->0.wf(),
    ensures
        r@ == url_text(prefix, url@),
{
    let p = match prefix {
        Some(p) => p,
        None => {
            return String::from_str(url);
        },
    };
    let chars = chars_of(url);
    let at: usize = find_scheme_end(&chars);
    if at >= chars.len() {
        return String::from_str(url);
    }
    let rest = part_of(&chars, at + 3, chars.len());
    assert(rest@ =~= url@.skip(at + 3));
    let end: usize = find_authority_end(&rest);
    let authority = part_of(&rest, 0, end);
    assert(authority@ =~= rest@.take(end as int));
    let colon = find_last(&authority, ':');
    let split: usize = match colon {
        Some(k) => k,
        None => authority.len(),
    };
    let host = part_of(&authority, 0, split);
    proof {
        assert(host@ =~= if colon is None {
            authority@
        } else {
            authority@.take(split as int)
        });
    }
    match parse_v4(&host) {
        Some(v4) => {
            let mut r = string_of(&chars, 0, at);
            r.append("://[");
            let ip = p.synthesise(v4);
            let text = ip.to_text();
            r.append(text.as_str());
            r.append("]");
            let port = string_of(&authority, split, authority.len());
            r.append(port.as_str());
            let tail = string_of(&rest, end, rest.len());
            r.append(tail.as_str());
            proof {
                assert(url@.take(at as int) =~= chars@.subrange(0, at as int));
                assert(port@ =~= authority@.skip(host@.len() as int));
                assert(tail@ =~= rest@.skip(end as int));
            }
            r
        },
        None => String::from_str(url),
    }
}

/// Without a prefix nothing is rewritten.
pub proof fn without_a_prefix_nothing_is_rewritten(s: Seq<char>)
    ensures
        authority_text(None, s) == s,
        url_text(None, s) == s,
{
}

/// Where `.` first stands in `s`; the length of `s` when it does not.
pub open spec fn first_dot(s: Seq<u8>) -> int
    decreases s.len(),
{
    if s.len() == 0 || s[0] == 46 {
        0
    } else {
        1 + first_dot(s.drop_first())
    }
}

/// One label on the wire: its length, then its bytes, at most 63 of them. An
/// empty label is left out.
pub open spec fn wire_label(label: Seq<u8>) -> Seq<u8> {
    if label.len() == 0 {
        seq![]
    } else if label.len() <= 63 {
        seq![label.len() as u8] + label
    } else {
        seq![63u8] + label.take(63)
    }
}

/// The labels of a name on the wire, without the root label.
pub open spec fn wire_labels(name: Seq<u8>) -> Seq<u8>
    decreases name.len(),
{
    let k = first_dot(name);
    if 0 <= k < name.len() {
        wire_label(name.take(k)) + wire_labels(name.skip(k + 1))
    } else {
        wire_label(name)
    }
}

/// A number as two bytes, the high one first.
pub open spec fn two_bytes(n: u16) -> Seq<u8> {
    seq![(n / 256) as u8, (n % 256) as u8]
}

/// A standard recursive AAAA query.
pub open spec fn query_bytes(id: u16, name: Seq<u8>) -> Seq<u8> {
    two_bytes(id) + seq![1u8, 0, 0, 1, 0, 0, 0, 0, 0, 0] + wire_labels(name) + seq![0u8, 0, 28, 0, 1]
}

fn push_label(out: &mut Vec<u8>, name: &[u8], from: usize, to: usize)
    requires
        from <= to <= name@.len(),
    ensures
        final(out)@ == old(out)@ + wire_label(name@.subrange(from as int, to as int)),
{
    let ghost before = out@;
    let ghost label = name@.subrange(from as int, to as int);
    let len: usize = if to - from > 63 {
        63
    } else {
        to - from
    };
    if len == 0 {
        assert(before + wire_label(label) =~= before);
        return;
    }
    out.push(len as u8);
    let mut i: usize = 0;
    while i < len
        invariant
            i <= len <= 63,
            from + len <= to <= name@.len(),
            out@ == before.push(len as u8) + label.take(i as int),
            label == name@.subrange(from as int, to as int),
        decreases len - i,
    {
        out.push(name[from + i]);
        assert(label.take(i + 1) =~= label.take(i as int).push(name@[from + i]));
        i = i + 1;
    }
    proof {
        if label.len() <= 63 {
            assert(label.take(len as int) =~= label);
        }
        assert(out@ =~= before + wire_label(label));
    }
}

/// Builds a standard recursive AAAA query.
pub fn encode_query(id: u16, name: &str) -> (out: Vec<u8>)
    ensures
        out@ == query_bytes(id, vstd::utf8::encode_utf8(name@)),
{
    let bytes = name.as_bytes();
    let mut out: Vec<u8> = Vec::new();
    out.push((id / 256) as u8);
    out.push((id % 256) as u8);
    out.push(1);
    out.push(0);
    out.push(0);
    out.push(1);
    out.push(0);
    out.push(0);
    out.push(0);
    out.push(0);
    out.push(0);
    out.push(0);
    let ghost head = out@;
    assert(head =~= two_bytes(id) + seq![1u8, 0, 0, 1, 0, 0, 0, 0, 0, 0]);
    let mut from: usize = 0;
    let mut done = false;
    assert(bytes@.skip(0) =~= bytes@);
    while !done
        invariant
            from <= bytes@.len(),
            !done ==> out@ + wire_labels(bytes@.skip(from as int)) == head + wire_labels(bytes@),
            done ==> out@ == head + wire_labels(bytes@),
        decreases bytes@.len() - from + if done {
            0int
        } else {
            1
        },
    {
        let ghost rest = bytes@.skip(from as int);
        let mut to: usize = from;
        assert(rest.skip(0) =~= rest);
        while to < bytes.len() && bytes[to] != 46
            invariant
                from <= to <= bytes@.len(),
                rest == bytes@.skip(from as int),
                first_dot(rest) == to - from + first_dot(rest.skip(to - from)),
            decreases bytes@.len() - to,
        {
            assert(rest.skip(to - from).drop_first() =~= rest.skip(to + 1 - from));
            to = to + 1;
        }
        let ghost before = out@;
        push_label(&mut out, bytes, from, to);
        proof {
            assert(bytes@.subrange(from as int, to as int) =~= rest.take(to - from));
            if to < bytes@.len() {
                assert(rest.skip(to - from + 1) =~= bytes@.skip(to + 1));
                assert(out@ + wire_labels(bytes@.skip(to + 1)) =~= before + wire_labels(rest));
            } else {
                assert(rest.take(to - from) =~= rest);
                assert(out@ =~= before + wire_labels(rest));
            }
        }
        if to < bytes.len() {
            from = to + 1;
        } else {
            done = true;
        }
    }
    out.push(0);
    out.push(0);
    out.push(28);
    out.push(0);
    out.push(1);
    assert(out@ =~= query_bytes(id, bytes@));
    out
}

/// The number in two bytes at `i`.
pub open spec fn be16(msg: Seq<u8>, i: int) -> nat {
    msg[i] as nat * 256 + msg[i + 1] as nat
}

/// The number whose bytes are `s`, the high one first.
pub open spec fn be_number(s: Seq<u8>) -> nat
    decreases s.len(),
{
    if s.len() == 0 {
        0
    } else {
        be_number(s.drop_last()) * 256 + s.last() as nat
    }
}

/// A position, unless it is too large to be one.
pub open spec fn position(n: nat) -> Option<nat> {
    if n <= usize::MAX {
        Some(n)
    } else {
        None
    }
}

/// The position after a name, whether it ends in a root label or in a
/// compression pointer, which is two bytes and is not followed.
pub open spec fn after_name(msg: Seq<u8>, at: nat) -> Option<nat>
    decreases
            if at < msg.len() {
                msg.len() - at
            } else {
                0
            },
{
    if at >= msg.len() {
        None
    } else {
        let len = msg[at as int] as nat;
        if len >= 0xc0 {
            position(at + 2)
        } else if at + 1 + len > usize::MAX {
            None
        } else if len == 0 {
            Some(at + 1)
        } else {
            after_name(msg, at + 1 + len)
        }
    }
}

/// The position after `n` questions.
pub open spec fn after_questions(msg: Seq<u8>, at: nat, n: nat) -> Option<nat>
    decreases n,
{
    if n == 0 {
        Some(at)
    } else {
        match after_name(msg, at) {
            Some(next) => match position(next + 4) {
                Some(next) => after_questions(msg, next, (n - 1) as nat),
                None => None,
            },
            None => None,
        }
    }
}

/// One record that starts behind its name at `at`: the position after it and
/// the IPv6 address in it, if it holds one. A record cannot claim more data
/// than the message holds.
pub open spec fn record(msg: Seq<u8>, at: nat) -> Option<(nat, Option<IpAddr>)> {
    if at + 9 >= msg.len() {
        None
    } else {
        let rtype = be16(msg, at as int);
        let length = be16(msg, (at + 8) as int);
        let data = at + 10;
        if data + length > msg.len() {
            None
        } else if rtype == 28 && length == 16 {
            Some(
                (
                    data + length,
                    Some(IpAddr::V6(be_number(msg.subrange(data as int, (data + 16) as int)) as u128)),
                ),
            )
        } else {
            Some((data + length, None))
        }
    }
}

/// The IPv6 addresses in `n` records from `at` on.
pub open spec fn answers(msg: Seq<u8>, at: nat, n: nat) -> Option<Seq<IpAddr>>
    decreases n,
{
    if n == 0 {
        Some(seq![])
    } else {
        match after_name(msg, at) {
            None => None,
            Some(start) => match record(msg, start) {
                None => None,
                Some((next, found)) => match answers(msg, next, (n - 1) as nat) {
                    None => None,
                    Some(rest) => match found {
                        Some(ip) => Some(seq![ip] + rest),
                        None => Some(rest),
                    },
                },
            },
        }
    }
}

/// The AAAA records of a response to the query `id`; `None` when the message is
/// no such response. A response with an error code has no records.
pub open spec fn aaaa_records(msg: Seq<u8>, id: u16) -> Option<Seq<IpAddr>> {
    if msg.len() < 4 || be16(msg, 0) != id || msg[2] < 0x80 {
        None
    } else if msg[3] % 16 != 0 {
        Some(seq![])
    } else if msg.len() < 8 {
        None
    } else {
        match after_questions(msg, 12, be16(msg, 4)) {
            Some(at) => answers(msg, at, be16(msg, 6)),
            None => None,
        }
    }
}

/// The position after a name.
pub fn skip_name(msg: &[u8], from: usize) -> (r: Option<usize>)
    ensures
        match after_name(msg@, from as nat) {
            Some(n) => r is Some && r->0 == n,
            None => r is None,
        },
{
    let mut at: usize = from;
    loop
        invariant
            after_name(msg@, from as nat) == after_name(msg@, at as nat),
        decreases
                if at < msg@.len() {
                    msg@.len() - at
                } else {
                    0
                },
    {
        if at >= msg.len() {
            return None;
        }
        let len: u8 = msg[at];
        if len >= 0xc0 {
            return at.checked_add(2);
        }
        let next = match at.checked_add(1) {
            Some(n) => n.checked_add(len as usize),
            None => None,
        };
        match next {
            None => {
                return None;
            },
            Some(n) => {
                if len == 0 {
                    return Some(n);
                }
                at = n;
            },
        }
    }
}

fn read_address(msg: &[u8], at: usize) -> (r: u128)
    requires
        at + 16 <= msg@.len(),
    ensures
        r as nat == be_number(msg@.subrange(at as int, at + 16)),
{
    let mut value: u128 = 0;
    let mut i: usize = 0;
    let end: usize = msg.len();
    let ghost all = msg@.subrange(at as int, at + 16);
    while i < 16
        invariant
            i <= 16,
            at + 16 <= end == msg@.len(),
            all == msg@.subrange(at as int, at + 16),
            value as nat == be_number(all.take(i as int)),
            i == 0 ==> value < 1,
            i == 1 ==> value < 0x100,
            i == 2 ==> value < 0x1_0000,
            i == 3 ==> value < 0x100_0000,
            i == 4 ==> value < 0x1_0000_0000,
            i == 5 ==> value < 0x100_0000_0000,
            i == 6 ==> value < 0x1_0000_0000_0000,
            i == 7 ==> value < 0x100_0000_0000_0000,
            i == 8 ==> value < 0x1_0000_0000_0000_0000,
            i == 9 ==> value < 0x100_0000_0000_0000_0000,
            i == 10 ==> value < 0x1_0000_0000_0000_0000_0000,
            i == 11 ==> value < 0x100_0000_0000_0000_0000_0000,
            i == 12 ==> value < 0x1_0000_0000_0000_0000_0000_0000,
            i == 13 ==> value < 0x100_0000_0000_0000_0000_0000_0000,
            i == 14 ==> value < 0x1_0000_0000_0000_0000_0000_0000_0000,
            i == 15 ==> value < 0x100_0000_0000_0000_0000_0000_0000_0000,
        decreases 16 - i,
    {
        proof {
            assert(all.take(i + 1).drop_last() =~= all.take(i as int));
            assert(all.take(i + 1).last() == msg@[at + i]);
        }
        value = value * 256 + msg[at + i] as u128;
        i = i + 1;
    }
    assert(all.take(16) =~= all);
    value
}

/// Pulls the AAAA records out of a response, or `None` if it is not one.
pub fn decode_aaaa(msg: &[u8], want_id: u16) -> (r: Option<Vec<IpAddr>>)
    ensures
        match (r, aaaa_records(msg@, want_id)) {
            (Some(list), Some(records)) => list@ == records,
            (None, None) => true,
            _ => false,
        },
{
    if msg.len() < 4 {
        return None;
    }
    let id: u32 = msg[0] as u32 * 256 + msg[1] as u32;
    if id != want_id as u32 || msg[2] < 0x80 {
        return None;
    }
    let mut out: Vec<IpAddr> = Vec::new();
    if msg[3] % 16 != 0 {
        assert(out@ =~= seq![]);
        return Some(out);
    }
    if msg.len() < 8 {
        return None;
    }
    let questions: u32 = msg[4] as u32 * 256 + msg[5] as u32;
    let count: u32 = msg[6] as u32 * 256 + msg[7] as u32;
    let mut at: usize = 12;
    let mut n: u32 = questions;
    while n > 0
        invariant
            n <= questions,
            after_questions(msg@, 12, questions as nat) == after_questions(
                msg@,
                at as nat,
                n as nat,
            ),
            msg@.len() >= 8,
            be16(msg@, 0) == want_id,
            msg@[2] >= 0x80,
            msg@[3] % 16 == 0,
            questions == be16(msg@, 4),
        decreases n,
    {
        at = match skip_name(msg, at) {
            Some(next) => match next.checked_add(4) {
                Some(next) => next,
                None => {
                    return None;
                },
            },
            None => {
                return None;
            },
        };
        n = n - 1;
    }
    let ghost start = at as nat;
    let mut m: u32 = count;
    while m > 0
        invariant
            m <= count,
            msg@.len() >= 8,
            aaaa_records(msg@, want_id) == answers(msg@, start, count as nat),
            match (answers(msg@, start, count as nat), answers(msg@, at as nat, m as nat)) {
                (Some(all), Some(rest)) => all == out@ + rest,
                (None, None) => true,
                _ => false,
            },
        decreases m,
    {
        let ghost before = out@;
        let ghost here = at as nat;
        let begin: usize = match skip_name(msg, at) {
            Some(next) => next,
            None => {
                return None;
            },
        };
        if begin >= msg.len() || msg.len() - begin < 10 {
            return None;
        }
        let rtype: u32 = msg[begin] as u32 * 256 + msg[begin + 1] as u32;
        let length: usize = msg[begin + 8] as usize * 256 + msg[begin + 9] as usize;
        let data: usize = begin + 10;
        if msg.len() - data < length {
            return None;
        }
        if rtype == 28 && length == 16 {
            let bits: u128 = read_address(msg, data);
            out.push(IpAddr::V6(bits));
        }
        at = data + length;
        m = m - 1;
        proof {
            if let Some(rest) = answers(msg@, at as nat, m as nat) {
                let all = answers(msg@, start, count as nat)->0;
                let older = answers(msg@, here, (m + 1) as nat)->0;
                assert(all =~= out@ + rest);
            }
        }
    }
    assert(out@ + seq![] =~= out@);
    Some(out)
}

/// The addresses that `resolv.conf` text names as nameservers, one for each
/// line that starts with the keyword, as they are written.
pub open spec fn nameserver_words(text: Seq<char>) -> Seq<Seq<char>> {
    named_servers(split_lines(text))
}

/// The word after the keyword on one line, if it is a nameserver line.
pub open spec fn nameserver_word(line: Seq<char>) -> Option<Seq<char>> {
    let body = trimmed(before_char(line, '#'));
    if begins_with(body, "nameserver"@) {
        let word = first_word(trimmed(body.skip("nameserver"@.len() as int)));
        if word.len() > 0 {
            Some(word)
        } else {
            None
        }
    } else {
        None
    }
}

/// The words after the keyword on the nameserver lines.
pub open spec fn named_servers(lines: Seq<Seq<char>>) -> Seq<Seq<char>>
    decreases lines.len(),
{
    if lines.len() == 0 {
        seq![]
    } else {
        let before = named_servers(lines.drop_last());
        match nameserver_word(lines.last()) {
            Some(word) => before.push(word),
            None => before,
        }
    }
}

fn server_on(line: &str) -> (r: Option<String>)
    ensures
        match (r, nameserver_word(line@)) {
            (Some(s), Some(w)) => s@ == w,
            (None, None) => true,
            _ => false,
        },
{
    let chars = chars_of(line);
    let hash: usize = find_from(&chars, 0, '#');
    assert(chars@.skip(0) =~= chars@);
    let head = string_of(&chars, 0, hash);
    assert(head@ =~= before_char(line@, '#'));
    let body = trim(head.as_str());
    let body_chars = chars_of(body.as_str());
    let keyword = chars_of("nameserver");
    if !has_prefix(&body_chars, &keyword) {
        return None;
    }
    let rest = string_of(&body_chars, keyword.len(), body_chars.len());
    assert(rest@ =~= body@.skip(keyword@.len() as int));
    let rest = trim(rest.as_str());
    let word = leading_word(rest.as_str());
    if chars_of(word.as_str()).len() > 0 {
        Some(word)
    } else {
        None
    }
}

/// The addresses that `resolv.conf` text names as nameservers, as they are
/// written.
pub fn nameservers(text: &str) -> (words: Vec<String>)
    ensures
        texts(words@) == nameserver_words(text@),
{
    let all = lines(text);
    let mut words: Vec<String> = Vec::new();
    let ghost views = texts(all@);
    let mut i: usize = 0;
    assert(texts(words@) =~= named_servers(views.take(0)));
    while i < all.len()
        invariant
            i <= all@.len(),
            views == texts(all@),
            texts(words@) == named_servers(views.take(i as int)),
        decreases all@.len() - i,
    {
        proof {
            assert(views.take(i + 1).drop_last() =~= views.take(i as int));
            assert(views.take(i + 1).last() == all@[i as int]@);
        }
        let ghost before = words@;
        if let Some(word) = server_on(all[i].as_str()) {
            words.push(word);
            assert(texts(words@) =~= texts(before).push(word@));
        }
        i = i + 1;
    }
    assert(views.take(i as int) =~= views);
    words
}

/// The two bytes of a query id: random ones, or fixed ones when there are none.
/// The id defends against an off-path forgery and nothing more, so doing
/// without is better than not asking.
pub fn id_bytes(random: Option<Vec<u8>>) -> (bytes: (u8, u8))
    requires
        random is Some ==> random->0@.len() >= 2,
    ensures
        bytes == match random {
            Some(b) => (b@[0], b@[1]),
            None => (0x4bu8, 0x53u8),
        },
{
    match random {
        Some(b) => (b[0], b[1]),
        None => (0x4b, 0x53),
    }
}

/// Two bytes from the operating system for a query id, or the fixed ones.
///
/// They are what `id_bytes` makes of two random bytes. Nothing holds of every
/// such pair.
pub fn rand_bytes() -> (bytes: (u8, u8)) {
    id_bytes(random_bytes(2))
}

/// What a datagram that arrived while a query is out means: nothing when it is
/// from anyone but the server that was asked, else the answer or the failure.
pub fn query_aaaa(server: SocketAddr, from: SocketAddr, response: &[u8], id: u16) -> (r: Option<
    Result<Vec<IpAddr>, &'static str>,
>)
    ensures
        if from != server {
            r is None
        } else {
            match aaaa_records(response@, id) {
                Some(records) => r is Some && r->0 is Ok && r->0->Ok_0@ == records,
                None => r is Some && r->0 is Err && r->0->Err_0@
                    == "the resolver's answer did not parse as a DNS response to this query"@,
            }
        },
{
    if from != server {
        return None;
    }
    match decode_aaaa(response, id) {
        Some(answers) => Some(Ok(answers)),
        None => Some(
            Err("the resolver's answer did not parse as a DNS response to this query"),
        ),
    }
}

/// The prefix that the first answer to give one away gives away.
pub open spec fn discovered_in(answers: Seq<IpAddr>) -> Option<Nat64Prefix>
    decreases answers.len(),
{
    if answers.len() == 0 {
        None
    } else if given_away(answers[0]) is Some {
        given_away(answers[0])
    } else {
        discovered_in(answers.skip(1))
    }
}

/// The prefix that a resolver's answers give away: the first that does decides.
/// Where none does, the next resolver is asked.
pub fn discover(answers: &Vec<IpAddr>) -> (r: Option<Nat64Prefix>)
    ensures
        r == discovered_in(answers@),
        r is Some ==> r->0.wf(),
{
    let mut i: usize = 0;
    assert(answers@.skip(0) =~= answers@);
    while i < answers.len()
        invariant
            i <= answers@.len(),
            discovered_in(answers@) == discovered_in(answers@.skip(i as int)),
        decreases answers@.len() - i,
    {
        let ghost rest = answers@.skip(i as int);
        assert(rest.skip(1) =~= answers@.skip(i + 1));
        assert(rest[0] == answers@[i as int]);
        if let Some(p) = Nat64Prefix::from_ipv4only_arpa(answers[i]) {
            return Some(p);
        }
        i = i + 1;
    }
    None
}

proof fn lemma_number(s: Seq<char>)
    ensures
        number(s) is Some <==> s.len() > 0 && forall|i: int|
            0 <= i < s.len() ==> '0' <= #[trigger] s[i] && s[i] <= '9',
        number(s) is Some ==> number(s)->0 == numeral_worth(s, 10),
    decreases s.len(),
{
    if s.len() > 0 {
        let init = s.drop_last();
        lemma_number(init);
        if s.len() == 1 {
            reveal_with_fuel(numeral_worth, 2);
            assert(init =~= seq![]);
            assert(s[0] == s.last());
        } else {
            if number(s) is Some {
                assert forall|i: int| 0 <= i < s.len() implies '0' <= #[trigger] s[i] && s[i]
                    <= '9' by {
                    if i < init.len() {
                        assert(init[i] == s[i]);
                    }
                }
            }
            if forall|i: int| 0 <= i < s.len() ==> '0' <= #[trigger] s[i] && s[i] <= '9' {
                assert forall|i: int| 0 <= i < init.len() implies '0' <= #[trigger] init[i]
                    && init[i] <= '9' by {
                    assert(init[i] == s[i]);
                }
                assert('0' <= s[s.len() - 1] && s[s.len() - 1] <= '9');
            }
        }
    }
}

proof fn lemma_decimal_length(n: nat)
    ensures
        n < 1000 <==> decimal_text(n).len() <= 3,
{
    reveal_with_fuel(decimal_text, 4);
    if n >= 1000 {
        assert(n / 10 >= 100);
        assert(n / 10 / 10 >= 10);
    }
}

proof fn lemma_octet(s: Seq<char>, n: nat)
    ensures
        octet(s) == Some(n) <==> n <= 255 && s == decimal_text(n),
{
    lemma_number(s);
    if octet(s) == Some(n) {
        assert forall|i: int| 0 <= i < s.len() implies 0 <= digit_worth(#[trigger] s[i]) < 10 by {
            assert('0' <= s[i] && s[i] <= '9');
        }
        lemma_numeral(s);
    }
    if n <= 255 && s == decimal_text(n) {
        lemma_decimal(n);
        lemma_decimal_length(n);
        assert forall|i: int| 0 <= i < s.len() implies '0' <= #[trigger] s[i] && s[i] <= '9' by {
            assert(0 <= digit_worth(s[i]) < 10);
        }
    }
}

proof fn lemma_no_dot(n: nat, c: char)
    requires
        c == '.' || c == ':',
    ensures
        forall|i: int| 0 <= i < decimal_text(n).len() ==> #[trigger] decimal_text(n)[i] != c,
{
    lemma_decimal(n);
    let s = decimal_text(n);
    assert forall|i: int| 0 <= i < s.len() implies #[trigger] s[i] != c by {
        assert(0 <= digit_worth(s[i]) < 10);
    }
}

proof fn lemma_last_dot(head: Seq<char>, n: nat)
    ensures
        last_index(head + seq!['.'] + decimal_text(n), '.') == head.len(),
{
    let s = head + seq!['.'] + decimal_text(n);
    lemma_no_dot(n, '.');
    lemma_last_from(s, '.', head.len() as int);
}

proof fn lemma_last_from(s: Seq<char>, c: char, k: int)
    requires
        0 <= k < s.len(),
        s[k] == c,
        forall|i: int| k < i < s.len() ==> #[trigger] s[i] != c,
    ensures
        last_index(s, c) == k,
    decreases s.len(),
{
    if k < s.len() - 1 {
        assert(s[s.len() - 1] != c);
        let init = s.drop_last();
        assert forall|i: int| k < i < init.len() implies #[trigger] init[i] != c by {
            assert(init[i] == s[i]);
        }
        lemma_last_from(init, c, k);
    }
}

proof fn lemma_last_is(s: Seq<char>, c: char)
    ensures
        -1 <= last_index(s, c) < s.len(),
        last_index(s, c) >= 0 ==> s[last_index(s, c)] == c,
    decreases s.len(),
{
    if s.len() > 0 && s.last() != c {
        lemma_last_is(s.drop_last(), c);
    }
}

proof fn lemma_dotted_step(head: Seq<char>, n: nat, count: nat)
    requires
        count >= 2,
        n <= 255,
    ensures
        dotted_value(head + seq!['.'] + decimal_text(n), count) == match dotted_value(
            head,
            (count - 1) as nat,
        ) {
            Some(high) => Some(256 * high + n),
            None => None,
        },
{
    let s = head + seq!['.'] + decimal_text(n);
    lemma_last_dot(head, n);
    lemma_octet(decimal_text(n), n);
    assert(s.take(head.len() as int) =~= head);
    assert(s.skip((head.len() + 1) as int) =~= decimal_text(n));
}

proof fn lemma_dotted_parts(s: Seq<char>, count: nat) -> (r: (Seq<char>, nat))
    requires
        count >= 2,
        dotted_value(s, count) is Some,
    ensures
        r.1 <= 255,
        s == r.0 + seq!['.'] + decimal_text(r.1),
        dotted_value(r.0, (count - 1) as nat) is Some,
        dotted_value(s, count)->0 == 256 * dotted_value(r.0, (count - 1) as nat)->0 + r.1,
{
    let k = last_index(s, '.');
    lemma_last_is(s, '.');
    let n = octet(s.skip(k + 1))->0;
    lemma_octet(s.skip(k + 1), n);
    assert(s =~= s.take(k) + seq!['.'] + s.skip(k + 1));
    (s.take(k), n)
}

/// Reading inverts writing: a text spells an IPv4 address exactly when it is
/// the written form of that address, four numbers with dots between them.
pub proof fn reading_an_address_inverts_writing_it(s: Seq<char>, x: u32)
    ensures
        v4_value(s) == Some(x as nat) <==> s == IpAddr::V4(x).text(),
        v4_value(s) is Some ==> v4_value(s)->0 <= u32::MAX,
        forall|a: u8, b: u8, c: u8, d: u8|
            v4_value(#[trigger] quad_text(a, b, c, d)) == Some(
                (a * 0x100_0000 + b * 0x1_0000 + c * 0x100 + d) as nat,
            ),
{
    assert forall|a: u8, b: u8, c: u8, d: u8|
        v4_value(#[trigger] quad_text(a, b, c, d)) == Some(
            (a * 0x100_0000 + b * 0x1_0000 + c * 0x100 + d) as nat,
        ) by {
        lemma_quad_value(a, b, c, d);
    }
    let (a, b, c, d) = lemma_octets(x);
    lemma_quad_text(a, b, c, d);
    if v4_value(s) is Some {
        let (t3, n3) = lemma_dotted_parts(s, 4);
        let (t2, n2) = lemma_dotted_parts(t3, 3);
        let (t1, n1) = lemma_dotted_parts(t2, 2);
        let n0 = dotted_value(t1, 1)->0;
        lemma_octet(t1, n0);
        assert(s =~= quad_text(n0 as u8, n1 as u8, n2 as u8, n3 as u8));
        if v4_value(s) == Some(x as nat) {
            assert(n0 == a && n1 == b && n2 == c && n3 == d);
        }
    }
}

proof fn lemma_quad_value(a: u8, b: u8, c: u8, d: u8)
    ensures
        v4_value(quad_text(a, b, c, d)) == Some(
            (a * 0x100_0000 + b * 0x1_0000 + c * 0x100 + d) as nat,
        ),
{
    let t1 = decimal_text(a as nat);
    let t2 = t1 + seq!['.'] + decimal_text(b as nat);
    let t3 = t2 + seq!['.'] + decimal_text(c as nat);
    lemma_octet(t1, a as nat);
    lemma_dotted_step(t1, b as nat, 2);
    lemma_dotted_step(t2, c as nat, 3);
    lemma_dotted_step(t3, d as nat, 4);
}

proof fn lemma_first_from(s: Seq<char>, c: char, k: int)
    requires
        0 <= k <= s.len(),
        forall|i: int| 0 <= i < k ==> #[trigger] s[i] != c,
        k < s.len() ==> s[k] == c,
    ensures
        first_index(s, c) == k,
    decreases k,
{
    if k > 0 {
        assert(s[0] != c);
        let rest = s.drop_first();
        assert forall|i: int| 0 <= i < k - 1 implies #[trigger] rest[i] != c by {
            assert(rest[i] == s[i + 1]);
        }
        lemma_first_from(rest, c, k - 1);
    }
}

proof fn lemma_quad_chars(v4: u32)
    ensures
        forall|i: int|
            0 <= i < IpAddr::V4(v4).text().len() ==> {
                ||| #[trigger] IpAddr::V4(v4).text()[i] == '.'
                ||| '0' <= IpAddr::V4(v4).text()[i] && IpAddr::V4(v4).text()[i] <= '9'
            },
{
    let (a, b, c, d) = lemma_octets(v4);
    lemma_quad_text(a, b, c, d);
    let s = IpAddr::V4(v4).text();
    let (ta, tb, tc, td) = (
        decimal_text(a as nat),
        decimal_text(b as nat),
        decimal_text(c as nat),
        decimal_text(d as nat),
    );
    lemma_decimal(a as nat);
    lemma_decimal(b as nat);
    lemma_decimal(c as nat);
    lemma_decimal(d as nat);
    assert forall|i: int| 0 <= i < s.len() implies {
        ||| #[trigger] s[i] == '.'
        ||| '0' <= s[i] && s[i] <= '9'
    } by {
        let (n1, n2, n3) = (
            ta.len() + 1,
            ta.len() + 1 + tb.len() + 1,
            ta.len() + 1 + tb.len() + 1 + tc.len() + 1,
        );
        if i < ta.len() {
            assert(s[i] == ta[i]);
            assert(0 <= digit_worth(ta[i]) < 10);
        } else if n1 <= i < n1 + tb.len() {
            assert(s[i] == tb[i - n1]);
            assert(0 <= digit_worth(tb[i - n1]) < 10);
        } else if n2 <= i < n2 + tc.len() {
            assert(s[i] == tc[i - n2]);
            assert(0 <= digit_worth(tc[i - n2]) < 10);
        } else if n3 <= i {
            assert(s[i] == td[i - n3]);
            assert(0 <= digit_worth(td[i - n3]) < 10);
        }
    }
}

/// An IPv4 literal and its port are reached behind the prefix: the rewritten
/// form is that of the synthesised address with the same port.
pub proof fn a_literal_is_reached_behind_the_prefix(
    p: Nat64Prefix,
    address: &str,
    v4: u32,
    port: u16,
    r: String,
    ip: IpAddr,
    s: String,
)
    requires
        p.wf(),
        address@ == IpAddr::V4(v4).text() + seq![':'] + decimal_text(port as nat),
        call_ensures(rewrite_authority, (Some(p), address), r),
        call_ensures(Nat64Prefix::synthesise, (p, v4), ip),
        call_ensures(SocketAddr::to_text, (SocketAddr { ip, port },), s),
    ensures
        r@ == s@,
{
    let host = IpAddr::V4(v4).text();
    let digits = decimal_text(port as nat);
    let all = address@;
    lemma_quad_chars(v4);
    assert forall|i: int| 0 <= i < host.len() implies #[trigger] all[i] != ':' by {
        assert(all[i] == host[i]);
    }
    lemma_first_from(all, ':', host.len() as int);
    assert(all.take(host.len() as int) =~= host);
    assert(all.skip((host.len() + 1) as int) =~= digits);
    reading_an_address_inverts_writing_it(host, v4);
    lemma_decimal(port as nat);
    lemma_number(digits);
    assert forall|i: int| 0 <= i < digits.len() implies '0' <= #[trigger] digits[i] && digits[i]
        <= '9' by {
        assert(0 <= digit_worth(digits[i]) < 10);
    }
}

/// What does not begin with an IPv4 literal and a colon is left alone.
pub proof fn a_name_is_left_alone(prefix: Option<Nat64Prefix>, address: &str, r: String)
    requires
        call_ensures(rewrite_authority, (prefix, address), r),
        forall|v4: u32|
            !begins_with(address@, #[trigger] IpAddr::V4(v4).text() + seq![':']),
    ensures
        r@ == address@,
{
    let s = address@;
    if v4_socket(s) is Some {
        let k = first_index(s, ':');
        let x = v4_value(s.take(k))->0;
        lemma_first_is(s, ':');
        reading_an_address_inverts_writing_it(s.take(k), x as u32);
        let t = IpAddr::V4(x as u32).text() + seq![':'];
        assert(s.take(t.len() as int) =~= t);
        assert(begins_with(s, t));
    }
}

proof fn lemma_first_is(s: Seq<char>, c: char)
    ensures
        0 <= first_index(s, c) <= s.len(),
        first_index(s, c) < s.len() ==> s[first_index(s, c)] == c,
    decreases s.len(),
{
    if s.len() > 0 && s[0] != c {
        lemma_first_is(s.drop_first(), c);
    }
}

/// A synthesised address is the prefix with the four octets in the places that
/// RFC 6052 gives them: behind the prefix, around the ninth byte, which stays
/// zero.
pub proof fn an_address_is_embedded_octet_by_octet(
    p: Nat64Prefix,
    a: u8,
    b: u8,
    c: u8,
    d: u8,
    ip: IpAddr,
)
    requires
        p.wf(),
        call_ensures(Nat64Prefix::synthesise, (p, quad(a, b, c, d)), ip),
    ensures
        ip is V6,
        p.len == 32 ==> ip->V6_0 == p.bits + a * 0x100_0000_0000_0000_0000_0000 + b
            * 0x1_0000_0000_0000_0000_0000 + c * 0x100_0000_0000_0000_0000 + d
            * 0x1_0000_0000_0000_0000,
        p.len == 40 ==> ip->V6_0 == p.bits + a * 0x1_0000_0000_0000_0000_0000 + b
            * 0x100_0000_0000_0000_0000 + c * 0x1_0000_0000_0000_0000 + d * 0x1_0000_0000_0000,
        p.len == 48 ==> ip->V6_0 == p.bits + a * 0x100_0000_0000_0000_0000 + b
            * 0x1_0000_0000_0000_0000 + c * 0x1_0000_0000_0000 + d * 0x100_0000_0000,
        p.len == 56 ==> ip->V6_0 == p.bits + a * 0x1_0000_0000_0000_0000 + b * 0x1_0000_0000_0000
            + c * 0x100_0000_0000 + d * 0x1_0000_0000,
        p.len == 64 ==> ip->V6_0 == p.bits + a * 0x1_0000_0000_0000 + b * 0x100_0000_0000 + c
            * 0x1_0000_0000 + d * 0x100_0000,
        p.len == 96 ==> ip->V6_0 == p.bits + a * 0x100_0000 + b * 0x1_0000 + c * 0x100 + d,
{
    let n = quad(a, b, c, d);
    assert(n == a * 0x100_0000 + b * 0x1_0000 + c * 0x100 + d);
    assert(n / 0x100 == a * 0x1_0000 + b * 0x100 + c && n % 0x100 == d);
    assert(n / 0x1_0000 == a * 0x100 + b && n % 0x1_0000 == c * 0x100 + d);
    assert(n / 0x100_0000 == a && n % 0x100_0000 == b * 0x1_0000 + c * 0x100 + d);
}

/// A prefix is made exactly of a length that RFC 6052 allows and of bits that
/// are zero behind it.
pub proof fn a_prefix_has_an_allowed_length(bits: u128, len: u8, r: Option<Nat64Prefix>)
    requires
        call_ensures(Nat64Prefix::new, (bits, len), r),
    ensures
        r is Some <==> {
            ||| len == 32 && bits % 0x1_0000_0000_0000_0000_0000_0000 == 0
            ||| len == 40 && bits % 0x100_0000_0000_0000_0000_0000 == 0
            ||| len == 48 && bits % 0x1_0000_0000_0000_0000_0000 == 0
            ||| len == 56 && bits % 0x100_0000_0000_0000_0000 == 0
            ||| len == 64 && bits % 0x1_0000_0000_0000_0000 == 0
            ||| len == 96 && bits % 0x1_0000_0000 == 0
        },
        r is Some ==> r->0.bits == bits && r->0.len == len,
{
}

/// The first answer that was synthesised for `ipv4only.arpa` decides, whatever
/// stands before and behind it.
pub proof fn the_first_synthesised_answer_decides(
    answers: &Vec<IpAddr>,
    r: Option<Nat64Prefix>,
    p: Nat64Prefix,
    v4: u32,
    i: int,
)
    requires
        call_ensures(discover, (answers,), r),
        p.wf(),
        v4 == WKA || v4 == SECOND_WKA,
        0 <= i < answers@.len(),
        answers@[i] == p.synthesised(v4),
        forall|k: int, q: Nat64Prefix, w: u32|
            0 <= k < i && q.wf() && (w == 0xc000_00aa || w == 0xc000_00ab) ==> #[trigger] answers@[k]
                != #[trigger] q.synthesised(w),
    ensures
        r == Some(p),
        WKA == 0xc000_00aa && SECOND_WKA == 0xc000_00ab,
{
    lemma_discovered(answers@, p, v4, i);
}

proof fn lemma_discovered(answers: Seq<IpAddr>, p: Nat64Prefix, v4: u32, i: int)
    requires
        p.wf(),
        v4 == WKA || v4 == SECOND_WKA,
        0 <= i < answers.len(),
        answers[i] == p.synthesised(v4),
        forall|k: int, q: Nat64Prefix, w: u32|
            0 <= k < i && q.wf() && (w == 0xc000_00aa || w == 0xc000_00ab) ==> #[trigger] answers[k]
                != #[trigger] q.synthesised(w),
    ensures
        discovered_in(answers) == Some(p),
    decreases i,
{
    if i == 0 {
        a_synthesised_answer_gives_its_prefix_away(p, v4);
    } else {
        if given_away(answers[0]) is Some {
            let q = given_away(answers[0])->0;
            lemma_given(answers[0]);
            assert(false);
        }
        let rest = answers.skip(1);
        assert forall|k: int, q: Nat64Prefix, w: u32|
            0 <= k < i - 1 && q.wf() && (w == 0xc000_00aa || w == 0xc000_00ab) implies #[trigger] rest[k]
            != #[trigger] q.synthesised(w) by {
            assert(rest[k] == answers[k + 1]);
        }
        lemma_discovered(rest, p, v4, i - 1);
    }
}

/// What an answer gives away, it was synthesised with.
proof fn lemma_given(addr: IpAddr)
    requires
        given_away(addr) is Some,
    ensures
        given_away(addr)->0.wf(),
        exists|w: u32|
            (w == 0xc000_00aa || w == 0xc000_00ab) && addr == #[trigger] given_away(
                addr,
            )->0.synthesised(w),
{
    let p = given_away(addr)->0;
    let a = addr->V6_0;
    let free = free_range(p.len) as int;
    assert(free > 0);
    vstd::arithmetic::div_mod::lemma_fundamental_div_mod(a as int, free);
    vstd::arithmetic::div_mod::lemma_mod_multiples_basic(a as int / free, free);
    vstd::arithmetic::mul::lemma_mul_is_commutative(a as int / free, free);
    assert(addr == p.synthesised(WKA) || addr == p.synthesised(SECOND_WKA));
}

/// An IPv4 address other than zero and those from 127.0.0.0 to 127.255.255.255.
pub open spec fn is_sender_v4(ip: IpAddr) -> bool {
    ip is V4 && ip->V4_0 != 0 && !(0x7f00_0000 <= ip->V4_0 <= 0x7fff_ffff)
}

/// The prefix is used exactly where the datapath is IPv6 and either the
/// operator fixed it, or the automatic mode found it on a host without IPv4 of
/// its own. An address that a host could send from is neither zero nor in
/// 127.0.0.0/8.
pub proof fn a_prefix_is_used_where_it_is_needed(
    mode: Mode,
    listen: SocketAddr,
    addresses: &Vec<IpAddr>,
    own: bool,
    asks: bool,
    discovered: Option<Nat64Prefix>,
    r: Option<Nat64Prefix>,
)
    requires
        call_ensures(has_ipv4, (addresses,), own),
        call_ensures(discovers, (mode, listen, own), asks),
        call_ensures(resolve, (mode, listen, own, discovered), r),
    ensures
        own <==> exists|i: int|
            0 <= i < addresses@.len() && is_sender_v4(#[trigger] addresses@[i]),
        asks <==> mode is Auto && listen.ip is V6 && !own,
        listen.ip is V4 ==> r is None,
        listen.ip is V6 ==> r == match mode {
            Mode::Off => None,
            Mode::Fixed(p) => Some(p),
            Mode::Auto => if asks {
                discovered
            } else {
                None
            },
        },
{
    assert forall|i: int| 0 <= i < addresses@.len() implies is_sender_v4(#[trigger] addresses@[i])
        == usable_v4(addresses@[i]) by {}
}

proof fn lemma_scheme_end(scheme: Seq<char>, rest: Seq<char>)
    requires
        forall|i: int| 0 <= i < scheme.len() ==> #[trigger] scheme[i] != ':',
    ensures
        scheme_end(scheme + seq![':', '/', '/'] + rest) == scheme.len(),
    decreases scheme.len(),
{
    let all = scheme + seq![':', '/', '/'] + rest;
    if scheme.len() > 0 {
        assert(all[0] == scheme[0]);
        let tail = scheme.drop_first();
        assert(all.drop_first() =~= tail + seq![':', '/', '/'] + rest);
        lemma_scheme_end(tail, rest);
    }
}

proof fn lemma_authority_end(authority: Seq<char>, tail: Seq<char>)
    requires
        forall|i: int| 0 <= i < authority.len() ==> !ends_authority(#[trigger] authority[i]),
        tail.len() > 0 ==> ends_authority(tail[0]),
    ensures
        authority_end(authority + tail) == authority.len(),
    decreases authority.len(),
{
    let all = authority + tail;
    if authority.len() > 0 {
        assert(all[0] == authority[0]);
        let rest = authority.drop_first();
        assert(all.drop_first() =~= rest + tail);
        lemma_authority_end(rest, tail);
    }
}

/// A URL whose host is an IPv4 literal is reached behind the prefix: the literal
/// gives way to its synthesised address, in brackets, and everything else stays.
/// A host that is no literal is left alone.
pub proof fn a_literal_host_is_reached_behind_the_prefix(
    prefix: Nat64Prefix,
    scheme: Seq<char>,
    host: Seq<char>,
    port: Seq<char>,
    tail: Seq<char>,
    url: &str,
    r: String,
    x: u32,
    ip: IpAddr,
    text: String,
    literal: String,
)
    requires
        url@ == scheme + seq![':', '/', '/'] + (host + port + tail),
        forall|i: int| 0 <= i < scheme.len() ==> #[trigger] scheme[i] != ':',
        forall|i: int|
            0 <= i < host.len() ==> !ends_authority(#[trigger] host[i]) && host[i] != ':',
        port.len() > 0 ==> port[0] == ':',
        forall|i: int|
            0 <= i < port.len() ==> !ends_authority(#[trigger] port[i]) && (i > 0 ==> port[i]
                != ':'),
        tail.len() > 0 ==> tail[0] == '/' || tail[0] == '?' || tail[0] == '#',
        call_ensures(rewrite_url, (Some(prefix), url), r),
        call_ensures(Nat64Prefix::synthesise, (prefix, x), ip),
        call_ensures(IpAddr::to_text, (ip,), text),
        call_ensures(IpAddr::to_text, (IpAddr::V4(x),), literal),
    ensures
        host == literal@ ==> r@ == scheme + seq![':', '/', '/', '['] + text@ + seq![']'] + port
            + tail,
        (forall|y: u32| host != #[trigger] IpAddr::V4(y).text()) ==> r@ == url@,
{
    let rest = host + port + tail;
    let authority = host + port;
    lemma_scheme_end(scheme, rest);
    let at = scheme.len() as int;
    assert(url@.take(at) =~= scheme);
    assert(url@.skip(at + 3) =~= rest);
    assert forall|i: int| 0 <= i < authority.len() implies !ends_authority(
        #[trigger] authority[i],
    ) by {
        if i < host.len() {
            assert(authority[i] == host[i]);
        } else {
            assert(authority[i] == port[i - host.len()]);
        }
    }
    assert(rest =~= authority + tail);
    lemma_authority_end(authority, tail);
    let end = authority.len() as int;
    assert(rest.take(end) =~= authority);
    assert(rest.skip(end) =~= tail);
    let colon = last_index(authority, ':');
    lemma_last_colon(host, port);
    let found = if colon < 0 {
        authority
    } else {
        authority.take(colon)
    };
    assert(found =~= host);
    assert(authority.skip(host.len() as int) =~= port);
    reading_an_address_inverts_writing_it(host, x);
    reveal_strlit("://[");
    reveal_strlit("]");
    assert("://["@ =~= seq![':', '/', '/', '[']);
    assert("]"@ =~= seq![']']);
    if host == literal@ {
        assert(v4_value(host) == Some(x as nat));
        assert(r@ =~= scheme + seq![':', '/', '/', '['] + text@ + seq![']'] + port + tail);
    }
    if forall|y: u32| host != #[trigger] IpAddr::V4(y).text() {
        if v4_value(host) is Some {
            let y = v4_value(host)->0 as u32;
            reading_an_address_inverts_writing_it(host, y);
            assert(host == IpAddr::V4(y).text());
        }
    }
}

proof fn lemma_last_colon(host: Seq<char>, port: Seq<char>)
    requires
        forall|i: int| 0 <= i < host.len() ==> #[trigger] host[i] != ':',
        port.len() > 0 ==> port[0] == ':',
        forall|i: int| 0 < i < port.len() ==> #[trigger] port[i] != ':',
    ensures
        last_index(host + port, ':') == if port.len() > 0 {
            host.len() as int
        } else {
            -1
        },
    decreases port.len(), host.len(),
{
    let all = host + port;
    if port.len() > 1 {
        assert(all.last() == port.last());
        assert(port.last() == port[port.len() - 1]);
        assert(all.drop_last() =~= host + port.drop_last());
        assert forall|i: int| 0 < i < port.drop_last().len() implies #[trigger] port.drop_last()[i]
            != ':' by {
            assert(port[i] != ':');
        }
        assert(port.drop_last()[0] == port[0]);
        lemma_last_colon(host, port.drop_last());
    } else if port.len() == 1 {
        assert(all.last() == port[0]);
    } else if host.len() > 0 {
        assert(all =~= host);
        assert(host.last() == host[host.len() - 1]);
        let init = host.drop_last();
        assert forall|i: int| 0 <= i < init.len() implies #[trigger] init[i] != ':' by {
            assert(host[i] != ':');
        }
        assert(init + port =~= init);
        lemma_last_colon(init, port);
    } else {
        assert(all.len() == 0);
    }
}

proof fn lemma_first_dot(s: Seq<u8>)
    ensures
        0 <= first_dot(s) <= s.len(),
    decreases s.len(),
{
    if s.len() > 0 && s[0] != 46 {
        lemma_first_dot(s.drop_first());
    }
}

proof fn lemma_label_skipped(msg: Seq<u8>, at: nat, label: Seq<u8>)
    requires
        at + wire_label(label).len() < msg.len() <= usize::MAX,
        msg.subrange(at as int, at as int + wire_label(label).len()) == wire_label(label),
    ensures
        after_name(msg, at) == after_name(msg, at + wire_label(label).len()),
{
    let w = wire_label(label);
    if label.len() > 0 {
        assert(msg[at as int] == msg.subrange(at as int, at as int + w.len())[0]);
        assert(w.len() == 1 + msg[at as int]);
    }
}

proof fn lemma_labels_skipped(msg: Seq<u8>, at: nat, name: Seq<u8>)
    requires
        at + wire_labels(name).len() < msg.len() <= usize::MAX,
        msg.subrange(at as int, at as int + wire_labels(name).len()) == wire_labels(name),
        msg[at as int + wire_labels(name).len()] == 0,
    ensures
        after_name(msg, at) == Some(at + wire_labels(name).len() + 1),
    decreases name.len(),
{
    let w = wire_labels(name);
    let k = first_dot(name);
    lemma_first_dot(name);
    if 0 <= k < name.len() {
        let a = wire_label(name.take(k));
        let b = wire_labels(name.skip(k + 1));
        assert(w == a + b);
        assert(msg.subrange(at as int, at as int + a.len()) =~= w.take(a.len() as int));
        assert(w.take(a.len() as int) =~= a);
        assert(msg.subrange(at as int + a.len(), at as int + a.len() + b.len()) =~= w.skip(a.len() as int));
        assert(w.skip(a.len() as int) =~= b);
        lemma_label_skipped(msg, at, name.take(k));
        lemma_labels_skipped(msg, at + a.len(), name.skip(k + 1));
    } else {
        lemma_label_skipped(msg, at, name);
    }
}

/// A query asks one question, recursively, under its identifier: the addresses
/// of IPv6 of a name, which is skipped as one name whatever it holds. A dot
/// begins a new label, and a label is its length and its bytes.
pub proof fn a_query_asks_one_question(
    id: u16,
    name: &str,
    out: Vec<u8>,
    msg: &[u8],
    end: Option<usize>,
    label: Seq<u8>,
)
    requires
        call_ensures(encode_query, (id, name), out),
        msg@ == out@,
        call_ensures(skip_name, (msg, 12), end),
        label == vstd::utf8::encode_utf8(name@),
    ensures
        out@.len() >= 17,
        out@[0] * 256 + out@[1] == id,
        out@.subrange(2, 12) == seq![1u8, 0, 0, 1, 0, 0, 0, 0, 0, 0],
        end is Some && end->0 + 4 == out@.len(),
        out@.skip(out@.len() - 4) == seq![0u8, 28, 0, 1],
        0 < label.len() <= 63 && (forall|i: int| 0 <= i < label.len() ==> #[trigger] label[i] != 46)
            ==> out@.subrange(12, out@.len() - 4) == seq![label.len() as u8] + label + seq![0u8],
{
    let bytes = vstd::utf8::encode_utf8(name@);
    let w = wire_labels(bytes);
    let head = two_bytes(id) + seq![1u8, 0, 0, 1, 0, 0, 0, 0, 0, 0];
    assert(out@.len() == out.len());
    assert(out@ =~= head + w + seq![0u8, 0, 28, 0, 1]);
    assert(out@.subrange(12, 12int + w.len()) =~= w);
    assert(out@[12int + w.len()] == 0);
    lemma_labels_skipped(out@, 12, bytes);
    assert(out@.subrange(2, 12) =~= seq![1u8, 0, 0, 1, 0, 0, 0, 0, 0, 0]);
    assert(out@.skip(out@.len() - 4) =~= seq![0u8, 28, 0, 1]);
    if 0 < label.len() <= 63 && forall|i: int| 0 <= i < label.len() ==> #[trigger] label[i] != 46 {
        lemma_no_dots(label);
        assert(w == wire_label(label));
        assert(out@.subrange(12, out@.len() - 4) =~= seq![label.len() as u8] + label + seq![0u8]);
    }
}

proof fn lemma_no_dots(s: Seq<u8>)
    requires
        forall|i: int| 0 <= i < s.len() ==> #[trigger] s[i] != 46,
    ensures
        first_dot(s) == s.len(),
    decreases s.len(),
{
    if s.len() > 0 {
        let rest = s.drop_first();
        assert forall|i: int| 0 <= i < rest.len() implies #[trigger] rest[i] != 46 by {
            assert(s[i + 1] != 46);
        }
        lemma_no_dots(rest);
    }
}

/// A name with a dot is the part before it and then the part behind it.
pub proof fn a_dot_begins_a_new_label(
    id: u16,
    left: &str,
    right: &str,
    both: &str,
    a: Vec<u8>,
    b: Vec<u8>,
    c: Vec<u8>,
)
    requires
        call_ensures(encode_query, (id, left), a),
        call_ensures(encode_query, (id, right), b),
        call_ensures(encode_query, (id, both), c),
        vstd::utf8::encode_utf8(both@) == vstd::utf8::encode_utf8(left@) + seq![46u8]
            + vstd::utf8::encode_utf8(right@),
        forall|i: int|
            0 <= i < vstd::utf8::encode_utf8(left@).len() ==> #[trigger] vstd::utf8::encode_utf8(
                left@,
            )[i] != 46,
    ensures
        c@ == a@.take(a@.len() - 5) + b@.skip(12),
{
    let x = vstd::utf8::encode_utf8(left@);
    let y = vstd::utf8::encode_utf8(right@);
    let z = vstd::utf8::encode_utf8(both@);
    lemma_no_dots(x);
    lemma_dot_at(x, y);
    assert(z.take(x.len() as int) =~= x);
    assert(z.skip(x.len() as int + 1) =~= y);
    assert(wire_labels(z) == wire_label(x) + wire_labels(y));
    assert(wire_labels(x) == wire_label(x));
    assert(c@ =~= a@.take(a@.len() - 5) + b@.skip(12));
}

proof fn lemma_dot_at(x: Seq<u8>, y: Seq<u8>)
    requires
        forall|i: int| 0 <= i < x.len() ==> #[trigger] x[i] != 46,
    ensures
        first_dot(x + seq![46u8] + y) == x.len(),
    decreases x.len(),
{
    let all = x + seq![46u8] + y;
    if x.len() > 0 {
        assert(all[0] == x[0]);
        let rest = x.drop_first();
        assert forall|i: int| 0 <= i < rest.len() implies #[trigger] rest[i] != 46 by {
            assert(x[i + 1] != 46);
        }
        assert(all.drop_first() =~= rest + seq![46u8] + y);
        lemma_dot_at(rest, y);
    }
}

/// The address whose sixteen bytes stand at a place, the first byte highest.
pub open spec fn address_at(msg: Seq<u8>, i: int) -> int {
    (((((((((((((((msg[i] * 256 + msg[i + 1]) * 256 + msg[i + 2]) * 256 + msg[i + 3]) * 256 + msg[i
        + 4]) * 256 + msg[i + 5]) * 256 + msg[i + 6]) * 256 + msg[i + 7]) * 256 + msg[i + 8]) * 256
        + msg[i + 9]) * 256 + msg[i + 10]) * 256 + msg[i + 11]) * 256 + msg[i + 12]) * 256 + msg[i
        + 13]) * 256 + msg[i + 14]) * 256 + msg[i + 15])
}

proof fn lemma_address(msg: Seq<u8>, i: int)
    requires
        0 <= i && i + 16 <= msg.len(),
    ensures
        be_number(msg.subrange(i, i + 16)) == address_at(msg, i),
        0 <= address_at(msg, i) <= u128::MAX,
{
    lemma_be_step(msg, i, 0);
    lemma_be_step(msg, i, 1);
    lemma_be_step(msg, i, 2);
    lemma_be_step(msg, i, 3);
    lemma_be_step(msg, i, 4);
    lemma_be_step(msg, i, 5);
    lemma_be_step(msg, i, 6);
    lemma_be_step(msg, i, 7);
    lemma_be_step(msg, i, 8);
    lemma_be_step(msg, i, 9);
    lemma_be_step(msg, i, 10);
    lemma_be_step(msg, i, 11);
    lemma_be_step(msg, i, 12);
    lemma_be_step(msg, i, 13);
    lemma_be_step(msg, i, 14);
    lemma_be_step(msg, i, 15);
    assert(msg.subrange(i, i) =~= Seq::<u8>::empty());
}

proof fn lemma_be_step(msg: Seq<u8>, i: int, n: int)
    requires
        0 <= i && 0 <= n && i + n < msg.len(),
    ensures
        be_number(msg.subrange(i, i + n + 1)) == be_number(msg.subrange(i, i + n)) * 256 + msg[i
            + n],
{
    assert(msg.subrange(i, i + n + 1).drop_last() =~= msg.subrange(i, i + n));
}

/// The record that starts at `at`, behind its name: what type it is of.
pub open spec fn type_at(msg: Seq<u8>, at: int) -> int {
    msg[at] * 256 + msg[at + 1]
}

/// How much data the record that starts at `at` claims.
pub open spec fn data_at(msg: Seq<u8>, at: int) -> int {
    msg[at + 8] * 256 + msg[at + 9]
}

/// What a record gives: its address if it is one of IPv6.
pub open spec fn given_by(msg: Seq<u8>, at: int) -> Seq<IpAddr> {
    if type_at(msg, at) == 28 && data_at(msg, at) == 16 {
        seq![IpAddr::V6(address_at(msg, at + 10) as u128)]
    } else {
        seq![]
    }
}

/// A response to another query, or no response, is none; one with an error has no
/// addresses. One question and two answers give the addresses of both answers, in
/// order, where each is one of IPv6; and an answer that claims more than there is
/// spoils the response.
pub proof fn a_response_gives_its_addresses(
    msg: &[u8],
    id: u16,
    r: Option<Vec<IpAddr>>,
    a: Option<usize>,
    b: Option<usize>,
    c: Option<usize>,
    from: SocketAddr,
    server: SocketAddr,
    q: Option<Result<Vec<IpAddr>, &'static str>>,
)
    requires
        call_ensures(decode_aaaa, (msg, id), r),
        call_ensures(skip_name, (msg, 12), a),
        a is Some && a->0 + 4 <= usize::MAX ==> call_ensures(
            skip_name,
            (msg, (a->0 + 4) as usize),
            b,
        ),
        a is Some && b is Some && b->0 + 10 <= msg@.len() && b->0 + 10 + data_at(
            msg@,
            b->0 as int,
        ) <= msg@.len() ==> call_ensures(
            skip_name,
            (msg, (b->0 + 10 + data_at(msg@, b->0 as int)) as usize),
            c,
        ),
        call_ensures(query_aaaa, (server, from, msg, id), q),
    ensures
        ({
            let m = msg@;
            let ours = m.len() >= 4 && m[0] * 256 + m[1] == id && m[2] >= 128;
            let clean = ours && m[3] % 16 == 0;
            let one = clean && m.len() >= 8 && m[4] == 0 && m[5] == 1 && a is Some && a->0 + 4
                <= usize::MAX;
            let x = b->0 as int;
            let fits = b is Some && x + 10 <= m.len() && x + 10 + data_at(m, x) <= m.len();
            let y = c->0 as int;
            let fits_too = c is Some && y + 10 <= m.len() && y + 10 + data_at(m, y) <= m.len();
            &&& !ours ==> r is None
            &&& ours && !clean ==> r is Some && r->0@.len() == 0
            &&& one && m[6] == 0 && m[7] == 0 ==> r is Some && r->0@.len() == 0
            &&& one && m[6] == 0 && m[7] == 1 ==> (r is Some <==> fits) && (fits ==> r->0@
                == given_by(m, x))
            &&& one && m[6] == 0 && m[7] == 2 ==> (r is Some <==> fits && fits_too) && (fits
                && fits_too ==> r->0@ == given_by(m, x) + given_by(m, y))
        }),
        q is None <==> from != server,
        q matches Some(Ok(list)) ==> r is Some && list@ == r->0@,
        q matches Some(Err(_)) ==> r is None,
{
    let m = msg@;
    assert(m.len() == msg.len());
    if m.len() >= 8 && m[4] == 0 && m[5] == 1 && a is Some && a->0 + 4 <= usize::MAX {
        let start = (a->0 + 4) as nat;
        reveal_with_fuel(after_questions, 2);
        assert(be16(m, 4) == 1);
        assert(after_questions(m, 12, 1) == Some(start));
        reveal_with_fuel(answers, 3);
        if let Some(p) = b {
            if p + 10 <= m.len() {
                if p + 26 <= m.len() {
                    lemma_address(m, p + 10);
                }
                let next = p + 10 + data_at(m, p as int);
                if next <= m.len() {
                    if let Some(k) = c {
                        if k + 26 <= m.len() {
                            lemma_address(m, k + 10);
                        }
                    }
                }
            }
        }
    }
}

/// A random identifier is the two bytes that were drawn; without a draw it is a
/// fixed one.
pub proof fn a_query_identifier_is_drawn(drawn: Vec<u8>, r: (u8, u8), none: (u8, u8))
    requires
        drawn@.len() >= 2,
        call_ensures(id_bytes, (Some(drawn),), r),
        call_ensures(id_bytes, (None::<Vec<u8>>,), none),
    ensures
        r.0 == drawn@[0] && r.1 == drawn@[1],
        none.0 == 0x4b && none.1 == 0x53,
{
}

/// The setting is off, automatic, or a prefix of its own.
pub proof fn a_setting_is_spelled_out(s: &str, prefix: Option<Nat64Prefix>, r: Option<Mode>)
    requires
        call_ensures(Mode::from_text, (s, prefix), r),
    ensures
        s@ == "off"@ || s@ == "false"@ ==> r == Some(Mode::Off),
        s@ == "auto"@ ==> r == Some(Mode::Auto),
        s@ != "off"@ && s@ != "false"@ && s@ != "auto"@ ==> (r is Some <==> prefix is Some) && (
        prefix is Some ==> r == Some(Mode::Fixed(prefix->0))),
{
    reveal_strlit("off");
    reveal_strlit("false");
    reveal_strlit("auto");
    assert("off"@.len() == 3 && "false"@.len() == 5 && "auto"@.len() == 4);
}

/// The nameservers that a text names are those of its lines, in order: one more
/// line adds at most one, which is the word behind the keyword, with what follows
/// a number sign left out. An empty text names none.
pub proof fn a_line_names_one_nameserver(
    text: &str,
    longer: &str,
    a: Vec<String>,
    b: Vec<String>,
    x: Vec<String>,
    y: Vec<String>,
    line: &str,
    head: &str,
    body: String,
    rest: &str,
    tail: String,
    t: &str,
    word: String,
)
    requires
        call_ensures(lines, (text,), a),
        call_ensures(lines, (longer,), b),
        texts(b@) == texts(a@).push(line@),
        call_ensures(nameservers, (text,), x),
        call_ensures(nameservers, (longer,), y),
        head@.len() <= line@.len(),
        head@ == line@.take(head@.len() as int),
        forall|i: int| 0 <= i < head@.len() ==> #[trigger] head@[i] != '#',
        head@.len() < line@.len() ==> line@[head@.len() as int] == '#',
        call_ensures(trim, (head,), body),
        rest@ == body@.skip("nameserver"@.len() as int),
        call_ensures(trim, (rest,), tail),
        t@ == tail@,
        call_ensures(leading_word, (t,), word),
    ensures
        ({
            let named = body@.len() >= "nameserver"@.len() && body@.take("nameserver"@.len() as int)
                == "nameserver"@ && word@.len() > 0;
            texts(y@) == if named {
                texts(x@).push(word@)
            } else {
                texts(x@)
            }
        }),
        a@.len() == 0 ==> x@.len() == 0,
{
    lemma_before(line@, head@);
    assert(texts(b@).drop_last() =~= texts(a@));
    assert(texts(b@).last() == line@);
    assert(texts(x@).len() == x@.len());
    assert(texts(a@).len() == a@.len());
}

proof fn lemma_before(line: Seq<char>, head: Seq<char>)
    requires
        head.len() <= line.len(),
        head == line.take(head.len() as int),
        forall|i: int| 0 <= i < head.len() ==> #[trigger] head[i] != '#',
        head.len() < line.len() ==> line[head.len() as int] == '#',
    ensures
        before_char(line, '#') == head,
{
    assert forall|i: int| 0 <= i < head.len() implies #[trigger] line[i] != '#' by {
        assert(head[i] == line[i]);
    }
    lemma_first_from(line, '#', head.len() as int);
}

} // verus!

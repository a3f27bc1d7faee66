//! Prefixes, interface addresses, and the cryptokey routing table.

use crate::addr::IpAddr;
use crate::text::decimal;
use vstd::arithmetic::div_mod::{
    lemma_basic_div, lemma_div_multiples_vanish, lemma_fundamental_div_mod,
};
use vstd::arithmetic::power2::{
    lemma2_to64, lemma2_to64_rest, lemma_pow2_adds, lemma_pow2_pos, lemma_pow2_unfold, pow2,
};
use vstd::prelude::*;

verus! {

/// The index of a peer in the roster.
pub type PeerIndex = usize;

/// The network that `bits` belongs to when the last `host` bits are dropped.
pub open spec fn masked(bits: nat, host: nat) -> nat {
    bits / pow2(host) * pow2(host)
}

/// Two to the power `k`.
fn power_of_two(k: u32) -> (p: u128)
    requires
        k < 128,
    ensures
        p == pow2(k as nat),
{
    let mut p: u128 = 1;
    let mut i: u32 = 0;
    proof {
        lemma2_to64();
    }
    while i < k
        invariant
            i <= k < 128,
            p == pow2(i as nat),
        decreases k - i,
    {
        proof {
            lemma_pow2_unfold((i + 1) as nat);
            lemma_power_bound((i + 1) as nat);
        }
        p = p * 2;
        i = i + 1;
    }
    p
}

proof fn lemma_power_bound(k: nat)
    requires
        k <= 127,
    ensures
        pow2(k) <= 0x8000_0000_0000_0000_0000_0000_0000_0000,
{
    lemma_pow2_adds(k, (127 - k) as nat);
    lemma_pow2_adds(64, 63);
    lemma_pow2_pos(k);
    lemma_pow2_pos((127 - k) as nat);
    lemma2_to64_rest();
    let a = pow2(k) as int;
    let b = pow2((127 - k) as nat) as int;
    assert(a <= a * b) by (nonlinear_arith)
        requires
            a >= 1,
            b >= 1,
    ;
}

/// All bits of an address lie below two to the power of its width.
proof fn lemma_width(ip: IpAddr)
    ensures
        ip.bits() < pow2(ip.width()),
{
    lemma_pow2_adds(64, 64);
    lemma2_to64();
    lemma2_to64_rest();
}

/// `bits` without its last `host` bits.
fn mask(bits: u128, host: u32) -> (m: u128)
    requires
        host <= 128,
    ensures
        m == masked(bits as nat, host as nat),
        m <= bits,
{
    if host == 128 {
        proof {
            lemma_width(IpAddr::V6(bits));
            lemma_basic_div(bits as int, pow2(128) as int);
        }
        return 0;
    }
    let p: u128 = power_of_two(host);
    proof {
        lemma_pow2_pos(host as nat);
        lemma_fundamental_div_mod(bits as int, p as int);
        assert(p * (bits / p) == bits / p * p) by (nonlinear_arith);
    }
    bits / p * p
}

/// A network: every address whose leading bits are those of `base`.
#[derive(Clone, Copy, Debug, PartialEq, Eq, Structural)]
pub struct Prefix {
    pub base: IpAddr,
    pub len: u8,
}

impl Prefix {
    /// The number of bits that a prefix leaves free.
    pub open spec fn host(self) -> nat {
        (self.base.width() - self.len) as nat
    }

    /// The length fits the family, and the bits after it are zero.
    pub open spec fn wf(self) -> bool {
        &&& self.len <= self.base.width()
        &&& self.base.bits() == masked(self.base.bits(), self.host())
    }

    /// Whether the prefix covers `ip`: the families agree, and so do the
    /// leading bits.
    pub open spec fn covers(self, ip: IpAddr) -> bool {
        &&& self.base is V4 == ip is V4
        &&& ip.bits() / pow2(self.host()) == self.base.bits() / pow2(self.host())
    }

    /// The written form: the base address, a slash, and the length.
    pub open spec fn text(self) -> Seq<char> {
        self.base.text().push('/') + crate::text::decimal_text(self.len as nat)
    }

    /// The network of length `len` that holds `ip`; `None` when the length
    /// does not fit the family.
    pub fn new(ip: IpAddr, len: u8) -> (r: Option<Prefix>)
        ensures
            match r {
                Some(p) => {
                    &&& len <= ip.width()
                    &&& p.wf()
                    &&& p.len == len
                    &&& p.base is V4 == ip is V4
                    &&& p.base.bits() == masked(ip.bits(), (ip.width() - len) as nat)
                    &&& p.covers(ip)
                },
                None => len > ip.width(),
            },
    {
        match ip {
            IpAddr::V4(bits) => {
                if len > 32 {
                    return None;
                }
                let base: u32 = mask(bits as u128, 32 - len as u32) as u32;
                proof {
                    lemma_masked(bits as nat, (32 - len) as nat);
                }
                Some(Prefix { base: IpAddr::V4(base), len })
            },
            IpAddr::V6(bits) => {
                if len > 128 {
                    return None;
                }
                let base: u128 = mask(bits, 128 - len as u32);
                proof {
                    lemma_masked(bits as nat, (128 - len) as nat);
                }
                Some(Prefix { base: IpAddr::V6(base), len })
            },
        }
    }

    /// The network address.
    pub fn base(&self) -> (r: IpAddr)
        ensures
            r == self.base,
    {
        self.base
    }

    /// Whether `ip` lies in this network. The families never cross.
    pub fn contains(&self, ip: IpAddr) -> (r: bool)
        requires
            self.wf(),
        ensures
            r == self.covers(ip),
    {
        match (self.base, ip) {
            (IpAddr::V4(base), IpAddr::V4(bits)) => {
                let m: u128 = mask(bits as u128, 32 - self.len as u32);
                proof {
                    lemma_masked(bits as nat, self.host());
                    lemma_masked(base as nat, self.host());
                }
                m == base as u128
            },
            (IpAddr::V6(base), IpAddr::V6(bits)) => {
                let m: u128 = mask(bits, 128 - self.len as u32);
                proof {
                    lemma_masked(bits as nat, self.host());
                    lemma_masked(base as nat, self.host());
                }
                m == base
            },
            _ => false,
        }
    }

    /// The written form of the prefix.
    pub fn to_text(&self) -> (s: String)
        ensures
            s@ == self.text(),
    {
        let mut s = self.base.to_text();
        s.push('/');
        let len = decimal(self.len as u64);
        s.append(len.as_str());
        s
    }
}

/// Masking keeps the leading bits and is idempotent.
proof fn lemma_masked(bits: nat, host: nat)
    ensures
        masked(bits, host) / pow2(host) == bits / pow2(host),
        masked(masked(bits, host), host) == masked(bits, host),
{
    lemma_pow2_pos(host);
    let q = (bits / pow2(host)) as int;
    let p = pow2(host) as int;
    lemma_div_multiples_vanish(q, p);
    assert(q * p == p * q) by (nonlinear_arith);
}

/// Two prefixes of one length that cover a common address are the same prefix.
pub proof fn prefixes_of_one_length_agree(a: Prefix, b: Prefix, ip: IpAddr)
    requires
        a.wf(),
        b.wf(),
        a.len == b.len,
        a.covers(ip),
        b.covers(ip),
    ensures
        a == b,
{
}

/// An address and its on-link prefix length; the host bits are kept.
#[derive(Clone, Copy, Debug, PartialEq, Eq, Structural)]
pub struct InterfaceAddress {
    pub addr: IpAddr,
    pub prefix_len: u8,
}

impl InterfaceAddress {
    /// The length fits the family.
    pub open spec fn wf(self) -> bool {
        self.prefix_len <= self.addr.width()
    }

    /// The network the address is on.
    pub open spec fn on_link(self) -> Prefix {
        let base = masked(self.addr.bits(), (self.addr.width() - self.prefix_len) as nat);
        Prefix {
            base: match self.addr {
                IpAddr::V4(_) => IpAddr::V4(base as u32),
                IpAddr::V6(_) => IpAddr::V6(base as u128),
            },
            len: self.prefix_len,
        }
    }

    /// The network the address is on.
    pub fn network(&self) -> (r: Prefix)
        requires
            self.wf(),
        ensures
            r == self.on_link(),
            r.wf(),
            r.covers(self.addr),
    {
        match Prefix::new(self.addr, self.prefix_len) {
            Some(p) => p,
            None => Prefix { base: self.addr, len: self.prefix_len },
        }
    }
}

/// Two peers claimed one range.
#[derive(Clone, Copy, Debug, PartialEq, Eq, Structural)]
pub struct Conflict {
    pub prefix: Prefix,
    pub first: PeerIndex,
    pub second: PeerIndex,
}

/// Which peer each range belongs to.
#[derive(Clone, Debug)]
pub struct AllowedIps {
    pub ranges: Vec<(Prefix, PeerIndex)>,
}

/// Whether entries `i` and `j` give one range to two peers.
pub open spec fn clash(ranges: Seq<(Prefix, PeerIndex)>, i: int, j: int) -> bool {
    ranges[i].0 == ranges[j].0 && ranges[i].1 != ranges[j].1
}

/// Whether some range is given to two peers.
pub open spec fn contested(ranges: Seq<(Prefix, PeerIndex)>) -> bool {
    exists|i: int, j: int| 0 <= i < j < ranges.len() && clash(ranges, i, j)
}

/// The first entry that gives the range of the last one to another peer.
pub open spec fn clash_with_last(ranges: Seq<(Prefix, PeerIndex)>, n: int) -> Option<int>
    decreases n,
{
    if n <= 0 {
        None
    } else {
        match clash_with_last(ranges, n - 1) {
            Some(i) => Some(i),
            None => if clash(ranges, n - 1, ranges.len() - 1) {
                Some(n - 1)
            } else {
                None
            },
        }
    }
}

/// The first range, in the order of the second claim on it, that two peers
/// claim.
pub open spec fn first_conflict(ranges: Seq<(Prefix, PeerIndex)>) -> Option<Conflict>
    decreases ranges.len(),
{
    if ranges.len() == 0 {
        None
    } else {
        match first_conflict(ranges.drop_last()) {
            Some(c) => Some(c),
            None => match clash_with_last(ranges, ranges.len() - 1) {
                Some(i) => Some(
                    Conflict {
                        prefix: ranges.last().0,
                        first: ranges[i].1,
                        second: ranges.last().1,
                    },
                ),
                None => None,
            },
        }
    }
}

proof fn lemma_clash_with_last(ranges: Seq<(Prefix, PeerIndex)>, n: int)
    requires
        0 <= n < ranges.len(),
    ensures
        match clash_with_last(ranges, n) {
            Some(i) => 0 <= i < n && clash(ranges, i, ranges.len() - 1),
            None => forall|i: int|
                0 <= i < n ==> !#[trigger] clash(ranges, i, ranges.len() - 1),
        },
    decreases n,
{
    if n > 0 {
        lemma_clash_with_last(ranges, n - 1);
    }
}

proof fn lemma_first_found(ranges: Seq<(Prefix, PeerIndex)>, i: int, n: int)
    requires
        0 <= i < n < ranges.len(),
        n == ranges.len() - 1,
        clash_with_last(ranges, i) is None,
        clash(ranges, i, n),
    ensures
        clash_with_last(ranges, n) == Some(i),
{
    lemma_found_stays(ranges, i + 1, n);
}

proof fn lemma_found_stays(ranges: Seq<(Prefix, PeerIndex)>, m: int, n: int)
    requires
        0 <= m <= n < ranges.len(),
        clash_with_last(ranges, m) is Some,
    ensures
        clash_with_last(ranges, n) == clash_with_last(ranges, m),
    decreases n - m,
{
    if m < n {
        lemma_found_stays(ranges, m, n - 1);
    }
}

proof fn lemma_conflict_stays(ranges: Seq<(Prefix, PeerIndex)>, n: int)
    requires
        0 <= n <= ranges.len(),
        first_conflict(ranges.take(n)) is Some,
    ensures
        first_conflict(ranges) == first_conflict(ranges.take(n)),
    decreases ranges.len() - n,
{
    if n < ranges.len() {
        assert(ranges.take(n + 1).drop_last() =~= ranges.take(n));
        lemma_conflict_stays(ranges, n + 1);
    } else {
        assert(ranges.take(n) =~= ranges);
    }
}

/// There is a first conflict exactly when some range is contested.
pub proof fn a_contested_range_is_a_conflict(ranges: Seq<(Prefix, PeerIndex)>)
    ensures
        first_conflict(ranges) is Some <==> contested(ranges),
    decreases ranges.len(),
{
    if ranges.len() > 0 {
        let init = ranges.drop_last();
        a_contested_range_is_a_conflict(init);
        lemma_clash_with_last(ranges, ranges.len() - 1);
        if contested(init) {
            let (i, j) = choose|i: int, j: int| 0 <= i < j < init.len() && clash(init, i, j);
            assert(clash(ranges, i, j));
        }
        if contested(ranges) {
            let (i, j) = choose|i: int, j: int| 0 <= i < j < ranges.len() && clash(ranges, i, j);
            if j < init.len() {
                assert(clash(init, i, j));
            }
        }
        if let Some(i) = clash_with_last(ranges, ranges.len() - 1) {
            assert(clash(ranges, i, ranges.len() - 1));
        }
    }
}

/// Whether entry `k` is a longest match for `ip`.
pub open spec fn longest_match(ranges: Seq<(Prefix, PeerIndex)>, ip: IpAddr, k: int) -> bool {
    &&& 0 <= k < ranges.len()
    &&& ranges[k].0.covers(ip)
    &&& forall|j: int|
        0 <= j < ranges.len() && #[trigger] ranges[j].0.covers(ip) ==> ranges[j].0.len
            <= ranges[k].0.len
}

/// The peer that the longest matching range belongs to.
pub open spec fn owner(ranges: Seq<(Prefix, PeerIndex)>, ip: IpAddr) -> Option<PeerIndex> {
    if exists|k: int| longest_match(ranges, ip, k) {
        Some(ranges[choose|k: int| longest_match(ranges, ip, k)].1)
    } else {
        None
    }
}

/// A longest match is unambiguous: whichever one is found, its peer is the
/// owner.
pub proof fn a_longest_match_names_the_owner(
    ranges: Seq<(Prefix, PeerIndex)>,
    ip: IpAddr,
    k: int,
)
    requires
        !contested(ranges),
        forall|i: int| 0 <= i < ranges.len() ==> (#[trigger] ranges[i]).0.wf(),
        longest_match(ranges, ip, k),
    ensures
        owner(ranges, ip) == Some(ranges[k].1),
{
    let c = choose|c: int| longest_match(ranges, ip, c);
    assert(longest_match(ranges, ip, c));
    prefixes_of_one_length_agree(ranges[c].0, ranges[k].0, ip);
    if ranges[c].1 != ranges[k].1 {
        if c < k {
            assert(clash(ranges, c, k));
        } else {
            assert(clash(ranges, k, c));
        }
    }
}

impl AllowedIps {
    /// Every range is a valid prefix and belongs to one peer.
    pub open spec fn wf(self) -> bool {
        &&& forall|i: int| 0 <= i < self.ranges@.len() ==> (#[trigger] self.ranges@[i]).0.wf()
        &&& !contested(self.ranges@)
    }

    /// A table over the given claims. Two peers claiming one range is refused,
    /// and the error names the range and the two.
    pub fn build(pairs: Vec<(Prefix, PeerIndex)>) -> (r: Result<AllowedIps, Conflict>)
        requires
            forall|i: int| 0 <= i < pairs@.len() ==> (#[trigger] pairs@[i]).0.wf(),
        ensures
            match r {
                Ok(table) => first_conflict(pairs@) is None && table.ranges == pairs && table.wf(),
                Err(c) => first_conflict(pairs@) == Some(c),
            },
    {
        let mut j: usize = 0;
        while j < pairs.len()
            invariant
                j <= pairs@.len(),
                first_conflict(pairs@.take(j as int)) is None,
            decreases pairs@.len() - j,
        {
            let ghost upto = pairs@.take(j + 1);
            assert(upto.drop_last() =~= pairs@.take(j as int));
            let mut i: usize = 0;
            while i < j
                invariant
                    i <= j < pairs@.len(),
                    upto == pairs@.take(j + 1),
                    clash_with_last(upto, i as int) is None,
                    first_conflict(upto.drop_last()) is None,
                decreases j - i,
            {
                if pairs[i].0 == pairs[j].0 && pairs[i].1 != pairs[j].1 {
                    proof {
                        assert(clash(upto, i as int, j as int));
                        lemma_first_found(upto, i as int, j as int);
                        lemma_conflict_stays(pairs@, j + 1);
                    }
                    return Err(
                        Conflict { prefix: pairs[i].0, first: pairs[i].1, second: pairs[j].1 },
                    );
                }
                assert(!clash(upto, i as int, j as int));
                i = i + 1;
            }
            j = j + 1;
        }
        proof {
            assert(pairs@.take(j as int) =~= pairs@);
            a_contested_range_is_a_conflict(pairs@);
        }
        Ok(AllowedIps { ranges: pairs })
    }

    /// The peer that traffic to `ip` goes to: the one with the longest range
    /// that covers it.
    pub fn route(&self, ip: IpAddr) -> (r: Option<PeerIndex>)
        requires
            self.wf(),
        ensures
            r == owner(self.ranges@, ip),
            r is None <==> forall|k: int|
                0 <= k < self.ranges@.len() ==> !(#[trigger] self.ranges@[k]).0.covers(ip),
    {
        let mut best: Option<usize> = None;
        let mut i: usize = 0;
        while i < self.ranges.len()
            invariant
                i <= self.ranges@.len(),
                self.wf(),
                match best {
                    Some(b) => {
                        &&& b < i
                        &&& self.ranges@[b as int].0.covers(ip)
                        &&& forall|j: int|
                            0 <= j < i && #[trigger] self.ranges@[j].0.covers(ip)
                                ==> self.ranges@[j].0.len <= self.ranges@[b as int].0.len
                    },
                    None => forall|j: int|
                        0 <= j < i ==> !#[trigger] self.ranges@[j].0.covers(ip),
                },
            decreases self.ranges@.len() - i,
        {
            let entry = self.ranges[i].0;
            if entry.contains(ip) {
                best = match best {
                    Some(b) => if self.ranges[b].0.len >= entry.len {
                        Some(b)
                    } else {
                        Some(i)
                    },
                    None => Some(i),
                };
            }
            i = i + 1;
        }
        match best {
            Some(b) => {
                proof {
                    assert(longest_match(self.ranges@, ip, b as int));
                    a_longest_match_names_the_owner(self.ranges@, ip, b as int);
                }
                Some(self.ranges[b].1)
            },
            None => None,
        }
    }

    /// Whether `peer` may send from `ip`: exactly when traffic to `ip` would
    /// go to it.
    pub fn permits(&self, peer: PeerIndex, ip: IpAddr) -> (r: bool)
        requires
            self.wf(),
        ensures
            r == (owner(self.ranges@, ip) == Some(peer)),
    {
        match self.route(ip) {
            Some(p) => p == peer,
            None => false,
        }
    }
}

/// Whether an address lies among the addresses of a network: those that begin
/// with its base, as many as the bits behind the prefix can count.
pub open spec fn lies_in(p: Prefix, ip: IpAddr) -> bool {
    match (p.base, ip) {
        (IpAddr::V4(base), IpAddr::V4(x)) => base <= x && x < base + pow2((32 - p.len) as nat),
        (IpAddr::V6(base), IpAddr::V6(x)) => base <= x && x < base + pow2((128 - p.len) as nat),
        _ => false,
    }
}

/// A network holds the addresses of its own family from its base on, two to the
/// power of the free bits of them, and no others.
pub proof fn a_network_holds_its_range(p: Prefix, ip: IpAddr, r: bool)
    requires
        p.wf(),
        call_ensures(Prefix::contains, (&p, ip), r),
    ensures
        r <==> lies_in(p, ip),
        p.covers(ip) <==> lies_in(p, ip),
{
    lemma_lies_in(p, ip);
}

/// Covering an address is holding it in the range.
pub proof fn lemma_lies_in(p: Prefix, ip: IpAddr)
    requires
        p.wf(),
    ensures
        p.covers(ip) <==> lies_in(p, ip),
{
    let m = pow2(p.host()) as int;
    let (b, x) = (p.base.bits() as int, ip.bits() as int);
    lemma_pow2_pos(p.host());
    lemma_fundamental_div_mod(x, m);
    lemma_fundamental_div_mod(b, m);
    assert(m * (b / m) == b / m * m) by (nonlinear_arith);
    assert(m * (x / m) == x / m * m) by (nonlinear_arith);
    assert(b == b / m * m);
    if p.base is V4 == ip is V4 {
        if x / m == b / m {
            assert(b <= x < b + m);
        }
        if b <= x < b + m {
            assert(x / m == b / m) by (nonlinear_arith)
                requires
                    m > 0,
                    b == b / m * m,
                    x == x / m * m + x % m,
                    0 <= x % m < m,
                    b <= x < b + m,
            ;
        }
    }
}

/// The network of an address starts at a multiple of its size, and the address
/// lies in it. A length beyond the bits of the family gives none.
pub proof fn a_network_is_aligned(ip: IpAddr, len: u8, r: Option<Prefix>)
    requires
        call_ensures(Prefix::new, (ip, len), r),
    ensures
        r is None <==> len > if ip is V4 {
            32int
        } else {
            128
        },
        r is Some ==> {
            &&& r->0.len == len
            &&& lies_in(r->0, ip)
            &&& r->0.base matches IpAddr::V4(base) ==> base as nat % pow2((32 - len) as nat) == 0
            &&& r->0.base matches IpAddr::V6(base) ==> base as nat % pow2((128 - len) as nat) == 0
        },
{
    if let Some(p) = r {
        lemma_lies_in(p, ip);
        let m = pow2(p.host()) as int;
        let q = ip.bits() as int / m;
        lemma_pow2_pos(p.host());
        vstd::arithmetic::div_mod::lemma_mod_multiples_basic(q, m);
    }
}

/// The network of an interface is the one of its length that its address lies
/// in.
pub proof fn an_interface_is_on_its_network(a: InterfaceAddress, p: Prefix, r: Option<Prefix>)
    requires
        a.wf(),
        call_ensures(InterfaceAddress::network, (&a,), p),
        call_ensures(Prefix::new, (a.addr, a.prefix_len), r),
    ensures
        r == Some(p),
{
    if let Some(q) = r {
        prefixes_of_one_length_agree(p, q, a.addr);
    }
}

/// Traffic goes to the peer with the longest range that holds the address, to
/// nobody where no range does, and a peer may send from exactly the addresses
/// that traffic to would come to it.
pub proof fn the_longest_range_decides(
    table: AllowedIps,
    ip: IpAddr,
    r: Option<PeerIndex>,
    k: int,
    peer: PeerIndex,
    allowed: bool,
)
    requires
        table.wf(),
        call_ensures(AllowedIps::route, (&table, ip), r),
        call_ensures(AllowedIps::permits, (&table, peer, ip), allowed),
        0 <= k < table.ranges@.len(),
    ensures
        lies_in(table.ranges@[k].0, ip) ==> r is Some,
        lies_in(table.ranges@[k].0, ip) && (forall|j: int|
            0 <= j < table.ranges@.len() && lies_in(#[trigger] table.ranges@[j].0, ip)
                ==> table.ranges@[j].0.len <= table.ranges@[k].0.len) ==> r == Some(
            table.ranges@[k].1,
        ),
        (forall|j: int|
            0 <= j < table.ranges@.len() ==> !lies_in(#[trigger] table.ranges@[j].0, ip)) ==> r is None,
        allowed <==> r == Some(peer),
{
    let ranges = table.ranges@;
    assert forall|j: int| 0 <= j < ranges.len() implies (#[trigger] ranges[j].0).covers(ip)
        == lies_in(ranges[j].0, ip) by {
        lemma_lies_in(ranges[j].0, ip);
    }
    if lies_in(ranges[k].0, ip) {
        assert(ranges[k].0.covers(ip));
        if forall|j: int|
            0 <= j < ranges.len() && lies_in(#[trigger] ranges[j].0, ip) ==> ranges[j].0.len
                <= ranges[k].0.len {
            assert(longest_match(ranges, ip, k));
            a_longest_match_names_the_owner(ranges, ip, k);
        }
    }
    lemma_owner_exists(ranges, ip, ranges.len());
    if forall|j: int| 0 <= j < ranges.len() ==> !lies_in(#[trigger] ranges[j].0, ip) {
        if exists|c: int| longest_match(ranges, ip, c) {
            let c = choose|c: int| longest_match(ranges, ip, c);
            assert(ranges[c].0.covers(ip));
        }
    }
}

/// Where some range covers an address, there is an owner.
proof fn lemma_owner_exists(ranges: Seq<(Prefix, PeerIndex)>, ip: IpAddr, n: nat)
    requires
        n <= ranges.len(),
    ensures
        (exists|j: int| 0 <= j < n && (#[trigger] ranges[j].0).covers(ip)) ==> exists|k: int|
            #[trigger] best_before(ranges, ip, n, k),
        n == ranges.len() && (exists|j: int| 0 <= j < n && (#[trigger] ranges[j].0).covers(ip))
            ==> owner(ranges, ip) is Some,
    decreases n,
{
    if n > 0 {
        lemma_owner_exists(ranges, ip, (n - 1) as nat);
        let m = n - 1;
        if exists|j: int| 0 <= j < n && (#[trigger] ranges[j].0).covers(ip) {
            if exists|j: int| 0 <= j < m && (#[trigger] ranges[j].0).covers(ip) {
                let k = choose|k: int| #[trigger] best_before(ranges, ip, m as nat, k);
                if ranges[m].0.covers(ip) && ranges[m].0.len > ranges[k].0.len {
                    assert(best_before(ranges, ip, n, m));
                } else {
                    assert(best_before(ranges, ip, n, k));
                }
            } else {
                assert(best_before(ranges, ip, n, m));
            }
            let k = choose|k: int| #[trigger] best_before(ranges, ip, n, k);
            if n == ranges.len() {
                assert(longest_match(ranges, ip, k));
            }
        }
    }
}

/// Whether entry `k` is a longest match among the first `n`.
pub open spec fn best_before(
    ranges: Seq<(Prefix, PeerIndex)>,
    ip: IpAddr,
    n: nat,
    k: int,
) -> bool {
    &&& 0 <= k < n
    &&& ranges[k].0.covers(ip)
    &&& forall|j: int|
        0 <= j < n && (#[trigger] ranges[j].0).covers(ip) ==> ranges[j].0.len <= ranges[k].0.len
}

/// A table is refused exactly when two peers claim one range, and the error
/// names a range and two different peers that both claim it. An accepted table
/// holds the claims as they were made.
pub proof fn one_range_has_one_peer(
    pairs: Vec<(Prefix, PeerIndex)>,
    r: Result<AllowedIps, Conflict>,
)
    requires
        call_ensures(AllowedIps::build, (pairs,), r),
    ensures
        r is Err <==> exists|i: int, j: int|
            0 <= i < pairs@.len() && 0 <= j < pairs@.len() && (#[trigger] pairs@[i]).0 == (
            #[trigger] pairs@[j]).0 && pairs@[i].1 != pairs@[j].1,
        r is Ok ==> r->Ok_0.ranges@ == pairs@,
        r matches Err(c) ==> c.first != c.second && pairs@.contains((c.prefix, c.first))
            && pairs@.contains((c.prefix, c.second)),
{
    let all = pairs@;
    a_contested_range_is_a_conflict(all);
    lemma_conflict_is_real(all);
    if contested(all) {
        let (i, j) = choose|i: int, j: int| 0 <= i < j < all.len() && clash(all, i, j);
        assert(all[i].0 == all[j].0 && all[i].1 != all[j].1);
    }
    if exists|i: int, j: int|
        0 <= i < all.len() && 0 <= j < all.len() && (#[trigger] all[i]).0 == (#[trigger] all[j]).0
            && all[i].1 != all[j].1 {
        let (i, j) = choose|i: int, j: int|
            0 <= i < all.len() && 0 <= j < all.len() && (#[trigger] all[i]).0 == (
            #[trigger] all[j]).0 && all[i].1 != all[j].1;
        if i < j {
            assert(clash(all, i, j));
        } else {
            assert(clash(all, j, i));
        }
    }
}

proof fn lemma_conflict_is_real(ranges: Seq<(Prefix, PeerIndex)>)
    ensures
        first_conflict(ranges) matches Some(c) ==> c.first != c.second && ranges.contains(
            (c.prefix, c.first),
        ) && ranges.contains((c.prefix, c.second)),
    decreases ranges.len(),
{
    if ranges.len() > 0 {
        let init = ranges.drop_last();
        lemma_conflict_is_real(init);
        if let Some(c) = first_conflict(init) {
            let i = choose|i: int| 0 <= i < init.len() && init[i] == (c.prefix, c.first);
            let j = choose|j: int| 0 <= j < init.len() && init[j] == (c.prefix, c.second);
            assert(ranges[i] == init[i] && ranges[j] == init[j]);
        } else {
            lemma_clash_with_last(ranges, ranges.len() - 1);
            if let Some(i) = clash_with_last(ranges, ranges.len() - 1) {
                assert(ranges[i] == (ranges.last().0, ranges[i].1));
                assert(ranges[ranges.len() - 1] == (ranges.last().0, ranges.last().1));
            }
        }
    }
}

/// A network is written as its base and its length, with a slash between them.
pub proof fn a_network_is_written_as_base_and_length(
    p: Prefix,
    s: String,
    base: String,
    len: String,
)
    requires
        call_ensures(Prefix::to_text, (&p,), s),
        call_ensures(IpAddr::to_text, (p.base,), base),
        call_ensures(decimal, (p.len as u64,), len),
    ensures
        s@ == base@ + seq!['/'] + len@,
{
    assert(s@ =~= base@ + seq!['/'] + len@);
}

/// Traffic goes only to a peer that has claimed the address.
pub proof fn lemma_owner_is_a_claim(table: AllowedIps, ip: IpAddr, r: Option<PeerIndex>)
    requires
        table.wf(),
        call_ensures(AllowedIps::route, (&table, ip), r),
    ensures
        r matches Some(peer) ==> exists|m: int|
            0 <= m < table.ranges@.len() && table.ranges@[m].1 == peer && lies_in(
                #[trigger] table.ranges@[m].0,
                ip,
            ),
{
    let ranges = table.ranges@;
    if r is Some {
        let m = choose|c: int| longest_match(ranges, ip, c);
        lemma_lies_in(ranges[m].0, ip);
        assert(lies_in(ranges[m].0, ip));
    }
}

} // verus!

//! The addresses this node advertises for itself, ordered by the grade of the
//! evidence behind them.

use crate::addr::{IpAddr, SocketAddr};
use crate::text::{text_le, text_not_after, text_order_is_total, text_order_is_transitive};
use vstd::prelude::*;

verus! {

/// Most reflexive addresses of one tier that are advertised at once.
pub const REFLEXIVE_MAX: usize = 4;

/// Most addresses one advertisement carries.
pub const MAX_CANDIDATES: usize = 16;

/// No address occurs twice.
pub open spec fn distinct(s: Seq<SocketAddr>) -> bool {
    forall|i: int, j: int| 0 <= i < j < s.len() ==> s[i] != s[j]
}

/// How often `addr` was reported.
pub open spec fn votes(reports: Seq<SocketAddr>, addr: SocketAddr) -> nat
    decreases reports.len(),
{
    if reports.len() == 0 {
        0
    } else {
        votes(reports.drop_last(), addr) + if reports.last() == addr {
            1nat
        } else {
            0
        }
    }
}

/// Whether `a` may stand before `b` in a ranking: it was reported more often,
/// or as often and its written form does not come later.
pub open spec fn ranks(reports: Seq<SocketAddr>, a: SocketAddr, b: SocketAddr) -> bool {
    ||| votes(reports, a) > votes(reports, b)
    ||| votes(reports, a) == votes(reports, b) && text_le(a.text(), b.text())
}

/// `list` is the ranking of the reported addresses that are not this node's
/// own: each once, most reported first.
pub open spec fn ranking(
    list: Seq<SocketAddr>,
    reports: Seq<SocketAddr>,
    own: Seq<SocketAddr>,
) -> bool {
    &&& distinct(list)
    &&& forall|a: SocketAddr| #[trigger]
        list.contains(a) <==> reports.contains(a) && !own.contains(a)
    &&& forall|i: int, j: int|
        0 <= i < j < list.len() ==> ranks(reports, #[trigger] list[i], #[trigger] list[j])
}

/// Whether `list` holds `addr`.
pub fn holds(list: &Vec<SocketAddr>, addr: SocketAddr) -> (r: bool)
    ensures
        r == list@.contains(addr),
{
    let mut i: usize = 0;
    while i < list.len()
        invariant
            i <= list@.len(),
            forall|j: int| 0 <= j < i ==> list@[j] != addr,
        decreases list@.len() - i,
    {
        if list[i] == addr {
            assert(list@[i as int] == addr);
            return true;
        }
        i = i + 1;
    }
    false
}

fn count_votes(reports: &Vec<SocketAddr>, addr: SocketAddr) -> (n: usize)
    ensures
        n == votes(reports@, addr),
{
    let mut n: usize = 0;
    let mut i: usize = 0;
    while i < reports.len()
        invariant
            i <= reports@.len(),
            n <= i,
            n == votes(reports@.take(i as int), addr),
        decreases reports@.len() - i,
    {
        proof {
            assert(reports@.take(i + 1).drop_last() =~= reports@.take(i as int));
        }
        if reports[i] == addr {
            n = n + 1;
        }
        i = i + 1;
    }
    assert(reports@.take(i as int) =~= reports@);
    n
}

fn may_stand_before(reports: &Vec<SocketAddr>, a: SocketAddr, b: SocketAddr) -> (r: bool)
    ensures
        r == ranks(reports@, a, b),
{
    let x: usize = count_votes(reports, a);
    let y: usize = count_votes(reports, b);
    if x != y {
        return x > y;
    }
    let s = a.to_text();
    let t = b.to_text();
    text_not_after(s.as_str(), t.as_str())
}

proof fn lemma_ranks(reports: Seq<SocketAddr>, a: SocketAddr, b: SocketAddr, c: SocketAddr)
    ensures
        ranks(reports, a, b) || ranks(reports, b, a),
        ranks(reports, a, b) && ranks(reports, b, c) ==> ranks(reports, a, c),
{
    text_order_is_total(a.text(), b.text());
    if text_le(a.text(), b.text()) && text_le(b.text(), c.text()) {
        text_order_is_transitive(a.text(), b.text(), c.text());
    }
}

/// Inserting into an ordered list of distinct addresses keeps it so.
proof fn lemma_insert(
    before: Seq<SocketAddr>,
    after: Seq<SocketAddr>,
    at: int,
    addr: SocketAddr,
    order: spec_fn(SocketAddr, SocketAddr) -> bool,
)
    requires
        0 <= at <= before.len(),
        after == before.insert(at, addr),
        distinct(before),
        !before.contains(addr),
        forall|i: int, j: int|
            0 <= i < j < before.len() ==> order(#[trigger] before[i], #[trigger] before[j]),
        forall|i: int| 0 <= i < at ==> order(#[trigger] before[i], addr),
        forall|i: int| at <= i < before.len() ==> order(addr, #[trigger] before[i]),
    ensures
        distinct(after),
        forall|a: SocketAddr| #[trigger] after.contains(a) <==> before.contains(a) || a == addr,
        forall|i: int, j: int|
            0 <= i < j < after.len() ==> order(#[trigger] after[i], #[trigger] after[j]),
{
    assert forall|a: SocketAddr| #[trigger] after.contains(a) <==> before.contains(a) || a
        == addr by {
        if after.contains(a) {
            let k = choose|k: int| 0 <= k < after.len() && after[k] == a;
            if k < at {
                assert(before[k] == a);
            } else if k > at {
                assert(before[k - 1] == a);
            }
        }
        if before.contains(a) {
            let k = choose|k: int| 0 <= k < before.len() && before[k] == a;
            if k < at {
                assert(after[k] == a);
            } else {
                assert(after[k + 1] == a);
            }
        }
        assert(after[at] == addr);
    }
    assert forall|i: int, j: int| 0 <= i < j < after.len() implies order(
        #[trigger] after[i],
        #[trigger] after[j],
    ) && after[i] != after[j] by {
        let i0 = if i < at { i } else { i - 1 };
        let j0 = if j < at { j } else { j - 1 };
        if i == at {
            assert(after[j] == before[j0]);
        } else if j == at {
            assert(after[i] == before[i0]);
        } else {
            assert(after[i] == before[i0]);
            assert(after[j] == before[j0]);
            assert(before[i0] != before[j0]);
        }
    }
}

/// The ranking of the reported addresses that are not this node's own.
pub fn rank(reports: &Vec<SocketAddr>, own: &Vec<SocketAddr>) -> (list: Vec<SocketAddr>)
    ensures
        ranking(list@, reports@, own@),
{
    let mut list: Vec<SocketAddr> = Vec::new();
    let mut i: usize = 0;
    let ghost order = |a: SocketAddr, b: SocketAddr| ranks(reports@, a, b);
    while i < reports.len()
        invariant
            i <= reports@.len(),
            distinct(list@),
            order == (|a: SocketAddr, b: SocketAddr| ranks(reports@, a, b)),
            forall|a: SocketAddr| #[trigger]
                list@.contains(a) <==> reports@.take(i as int).contains(a) && !own@.contains(a),
            forall|p: int, q: int|
                0 <= p < q < list@.len() ==> ranks(
                    reports@,
                    #[trigger] list@[p],
                    #[trigger] list@[q],
                ),
        decreases reports@.len() - i,
    {
        let addr = reports[i];
        let ghost seen = reports@.take(i as int);
        let ghost before = list@;
        let skip = holds(&list, addr) || holds(own, addr);
        if !skip {
            let mut at: usize = 0;
            while at < list.len() && may_stand_before(reports, list[at], addr)
                invariant
                    at <= list@.len(),
                    list@ == before,
                    forall|p: int| 0 <= p < at ==> ranks(reports@, #[trigger] list@[p], addr),
                decreases list@.len() - at,
            {
                at = at + 1;
            }
            proof {
                assert forall|p: int| at <= p < before.len() implies order(
                    addr,
                    #[trigger] before[p],
                ) by {
                    lemma_ranks(reports@, addr, before[at as int], before[p]);
                }
                assert forall|p: int| 0 <= p < at implies order(#[trigger] before[p], addr) by {}
                assert forall|p: int, q: int| 0 <= p < q < before.len() implies order(
                    #[trigger] before[p],
                    #[trigger] before[q],
                ) by {}
            }
            list.insert(at, addr);
            proof {
                lemma_insert(before, list@, at as int, addr, order);
                assert forall|p: int, q: int| 0 <= p < q < list@.len() implies ranks(
                    reports@,
                    #[trigger] list@[p],
                    #[trigger] list@[q],
                ) by {
                    assert(order(list@[p], list@[q]));
                }
            }
        }
        proof {
            let now = reports@.take(i + 1);
            assert(now =~= seen.push(addr));
            assert forall|a: SocketAddr| #[trigger] list@.contains(a) <==> now.contains(a)
                && !own@.contains(a) by {
                assert(before.contains(a) <==> seen.contains(a) && !own@.contains(a));
                if now.contains(a) {
                    let k = choose|k: int| 0 <= k < now.len() && now[k] == a;
                    if k < seen.len() {
                        assert(seen[k] == a);
                    }
                }
                if seen.contains(a) {
                    let k = choose|k: int| 0 <= k < seen.len() && seen[k] == a;
                    assert(now[k] == a);
                }
                assert(now[seen.len() as int] == addr);
                if a == addr && !skip {
                    assert(list@.contains(addr));
                }
            }
        }
        i = i + 1;
    }
    assert(reports@.take(i as int) =~= reports@);
    list
}

/// The first occurrence of each address, in order.
pub open spec fn first_occurrences(s: Seq<SocketAddr>) -> Seq<SocketAddr>
    decreases s.len(),
{
    if s.len() == 0 {
        seq![]
    } else {
        let before = first_occurrences(s.drop_last());
        if before.contains(s.last()) {
            before
        } else {
            before.push(s.last())
        }
    }
}

/// At most the first `n` elements.
pub open spec fn at_most(s: Seq<SocketAddr>, n: nat) -> Seq<SocketAddr> {
    if s.len() <= n {
        s
    } else {
        s.take(n as int)
    }
}

/// The explicit mapping and the interface addresses: what this node knows of
/// itself without asking anyone.
pub open spec fn own_addresses(mapping: Option<SocketAddr>, interfaces: Seq<SocketAddr>) -> Seq<
    SocketAddr,
> {
    match mapping {
        Some(m) => seq![m] + interfaces,
        None => interfaces,
    }
}

/// The addresses in the order in which they are offered: the explicit mapping,
/// the interface addresses, what reflectors reported, what peers reported.
pub open spec fn offered(
    mapping: Option<SocketAddr>,
    interfaces: Seq<SocketAddr>,
    reflected: Seq<SocketAddr>,
    from_peers: Seq<SocketAddr>,
) -> Seq<SocketAddr> {
    own_addresses(mapping, interfaces) + at_most(reflected, REFLEXIVE_MAX as nat) + at_most(
        from_peers.filter(|a: SocketAddr| !reflected.contains(a)),
        REFLEXIVE_MAX as nat,
    )
}

/// `list` is the advertised candidate list.
pub open spec fn candidate_list(
    list: Seq<SocketAddr>,
    mapping: Option<SocketAddr>,
    interfaces: Seq<SocketAddr>,
    reflector_reports: Seq<SocketAddr>,
    peer_reports: Seq<SocketAddr>,
) -> bool {
    exists|reflected: Seq<SocketAddr>, from_peers: Seq<SocketAddr>|
        {
            &&& #[trigger] ranking(reflected, reflector_reports, interfaces)
            &&& #[trigger] ranking(from_peers, peer_reports, interfaces)
            &&& list == at_most(
                first_occurrences(offered(mapping, interfaces, reflected, from_peers)),
                MAX_CANDIDATES as nat,
            )
        }
}

/// Appends those of the first `max` elements of `from` that are not there yet.
fn offer(list: &mut Vec<SocketAddr>, from: &Vec<SocketAddr>, max: usize, offered_so_far: Ghost<
    Seq<SocketAddr>,
>)
    requires
        old(list)@ == first_occurrences(offered_so_far@),
    ensures
        final(list)@ == first_occurrences(offered_so_far@ + at_most(from@, max as nat)),
{
    let ghost base = offered_so_far@;
    let mut i: usize = 0;
    assert(base + from@.take(0) =~= base);
    while i < from.len() && i < max
        invariant
            i <= from@.len(),
            i <= max,
            list@ == first_occurrences(base + from@.take(i as int)),
        decreases from@.len() - i,
    {
        let ghost next = base + from@.take(i + 1);
        proof {
            assert(next.drop_last() =~= base + from@.take(i as int));
            assert(next.last() == from@[i as int]);
        }
        let addr = from[i];
        if !holds(list, addr) {
            list.push(addr);
        }
        i = i + 1;
    }
    proof {
        assert(from@.take(i as int) =~= at_most(from@, max as nat));
    }
}

/// The advertised candidate list.
///
/// Explicit mappings come first, then interface addresses, then what reflectors
/// reported, then what peers reported, and no address is listed twice.
pub fn candidates(
    mapping: Option<SocketAddr>,
    interfaces: &Vec<SocketAddr>,
    reflector_reports: &Vec<SocketAddr>,
    peer_reports: &Vec<SocketAddr>,
) -> (list: Vec<SocketAddr>)
    ensures
        candidate_list(list@, mapping, interfaces@, reflector_reports@, peer_reports@),
{
    let reflected = rank(reflector_reports, interfaces);
    let ranked = rank(peer_reports, interfaces);
    let mut from_peers: Vec<SocketAddr> = Vec::new();
    let ghost fresh = |a: SocketAddr| !reflected@.contains(a);
    let mut i: usize = 0;
    while i < ranked.len()
        invariant
            i <= ranked@.len(),
            fresh == (|a: SocketAddr| !reflected@.contains(a)),
            from_peers@ == ranked@.take(i as int).filter(fresh),
        decreases ranked@.len() - i,
    {
        let addr = ranked[i];
        proof {
            assert(ranked@.take(i + 1).drop_last() =~= ranked@.take(i as int));
            reveal(Seq::filter);
        }
        if !holds(&reflected, addr) {
            from_peers.push(addr);
        }
        i = i + 1;
    }
    assert(ranked@.take(i as int) =~= ranked@);
    let mut list: Vec<SocketAddr> = Vec::new();
    let ghost own = own_addresses(mapping, interfaces@);
    assert(list@ =~= first_occurrences(Seq::<SocketAddr>::empty()));
    let mut first: Vec<SocketAddr> = Vec::new();
    if let Some(m) = mapping {
        first.push(m);
    }
    let ghost none = Seq::<SocketAddr>::empty();
    offer(&mut list, &first, first.len(), Ghost(none));
    let ghost a = none + first@;
    offer(&mut list, interfaces, interfaces.len(), Ghost(a));
    assert(a + interfaces@ =~= own);
    offer(&mut list, &reflected, REFLEXIVE_MAX, Ghost(own));
    let ghost b = own + at_most(reflected@, REFLEXIVE_MAX as nat);
    offer(&mut list, &from_peers, REFLEXIVE_MAX, Ghost(b));
    if list.len() > MAX_CANDIDATES {
        list.truncate(MAX_CANDIDATES);
    }
    proof {
        assert(list@ =~= at_most(
            first_occurrences(offered(mapping, interfaces@, reflected@, ranked@)),
            MAX_CANDIDATES as nat,
        ));
        assert(ranking(reflected@, reflector_reports@, interfaces@));
        assert(ranking(ranked@, peer_reports@, interfaces@));
    }
    list
}

proof fn lemma_first_occurrences_contains(s: Seq<SocketAddr>)
    ensures
        forall|a: SocketAddr| #[trigger] first_occurrences(s).contains(a) <==> s.contains(a),
        distinct(first_occurrences(s)),
        first_occurrences(s).len() <= s.len(),
    decreases s.len(),
{
    if s.len() > 0 {
        let init = s.drop_last();
        let before = first_occurrences(init);
        let now = first_occurrences(s);
        lemma_first_occurrences_contains(init);
        assert forall|a: SocketAddr| #[trigger] now.contains(a) <==> s.contains(a) by {
            assert(before.contains(a) <==> init.contains(a));
            if s.contains(a) {
                let k = choose|k: int| 0 <= k < s.len() && s[k] == a;
                if k < init.len() {
                    assert(init[k] == a);
                }
            }
            if init.contains(a) {
                let k = choose|k: int| 0 <= k < init.len() && init[k] == a;
                assert(s[k] == a);
            }
            assert(s[s.len() - 1] == s.last());
            if now.contains(a) && !before.contains(a) {
                let k = choose|k: int| 0 <= k < now.len() && now[k] == a;
                if k < before.len() {
                    assert(before[k] == a);
                }
            }
            if before.contains(a) {
                let k = choose|k: int| 0 <= k < before.len() && before[k] == a;
                assert(now[k] == a);
            }
            if !before.contains(s.last()) {
                assert(now[before.len() as int] == s.last());
            }
        }
        if !before.contains(s.last()) {
            assert forall|i: int, j: int| 0 <= i < j < now.len() implies now[i] != now[j] by {
                if j == before.len() {
                    assert(before.contains(before[i]));
                }
            }
        }
    }
}

proof fn lemma_first_occurrences_extends(s: Seq<SocketAddr>, t: Seq<SocketAddr>)
    ensures
        first_occurrences(s).is_prefix_of(first_occurrences(s + t)),
    decreases t.len(),
{
    if t.len() == 0 {
        assert(s + t =~= s);
    } else {
        lemma_first_occurrences_extends(s, t.drop_last());
        assert((s + t).drop_last() =~= s + t.drop_last());
    }
}

/// The list is bounded, and nothing is listed twice.
pub proof fn candidates_are_bounded_and_distinct(
    list: Seq<SocketAddr>,
    mapping: Option<SocketAddr>,
    interfaces: Seq<SocketAddr>,
    reflector_reports: Seq<SocketAddr>,
    peer_reports: Seq<SocketAddr>,
)
    requires
        candidate_list(list, mapping, interfaces, reflector_reports, peer_reports),
    ensures
        list.len() <= MAX_CANDIDATES,
        distinct(list),
{
    let (reflected, from_peers) = choose|
        reflected: Seq<SocketAddr>,
        from_peers: Seq<SocketAddr>,
    |
        {
            &&& #[trigger] ranking(reflected, reflector_reports, interfaces)
            &&& #[trigger] ranking(from_peers, peer_reports, interfaces)
            &&& list == at_most(
                first_occurrences(offered(mapping, interfaces, reflected, from_peers)),
                MAX_CANDIDATES as nat,
            )
        };
    lemma_first_occurrences_contains(offered(mapping, interfaces, reflected, from_peers));
}

/// No report displaces an address that this node knows of itself: the list
/// starts with the mapping and the interface addresses, as many as fit.
pub proof fn reports_never_displace_own_addresses(
    list: Seq<SocketAddr>,
    mapping: Option<SocketAddr>,
    interfaces: Seq<SocketAddr>,
    reflector_reports: Seq<SocketAddr>,
    peer_reports: Seq<SocketAddr>,
)
    requires
        candidate_list(list, mapping, interfaces, reflector_reports, peer_reports),
    ensures
        at_most(
            first_occurrences(own_addresses(mapping, interfaces)),
            MAX_CANDIDATES as nat,
        ).is_prefix_of(list),
{
    let (reflected, from_peers) = choose|
        reflected: Seq<SocketAddr>,
        from_peers: Seq<SocketAddr>,
    |
        {
            &&& #[trigger] ranking(reflected, reflector_reports, interfaces)
            &&& #[trigger] ranking(from_peers, peer_reports, interfaces)
            &&& list == at_most(
                first_occurrences(offered(mapping, interfaces, reflected, from_peers)),
                MAX_CANDIDATES as nat,
            )
        };
    let own = own_addresses(mapping, interfaces);
    let rest = at_most(reflected, REFLEXIVE_MAX as nat) + at_most(
        from_peers.filter(|a: SocketAddr| !reflected.contains(a)),
        REFLEXIVE_MAX as nat,
    );
    assert(own + rest =~= offered(mapping, interfaces, reflected, from_peers));
    lemma_first_occurrences_extends(own, rest);
}

/// What a peer claims comes after what reflectors reported: the list starts
/// with this node's own addresses and the reflectors' reports, as many as fit.
pub proof fn peers_never_displace_reflectors(
    list: Seq<SocketAddr>,
    mapping: Option<SocketAddr>,
    interfaces: Seq<SocketAddr>,
    reflector_reports: Seq<SocketAddr>,
    peer_reports: Seq<SocketAddr>,
)
    requires
        candidate_list(list, mapping, interfaces, reflector_reports, peer_reports),
    ensures
        exists|reflected: Seq<SocketAddr>|
            {
                &&& #[trigger] ranking(reflected, reflector_reports, interfaces)
                &&& at_most(
                    first_occurrences(
                        own_addresses(mapping, interfaces) + at_most(
                            reflected,
                            REFLEXIVE_MAX as nat,
                        ),
                    ),
                    MAX_CANDIDATES as nat,
                ).is_prefix_of(list)
            },
{
    let (reflected, from_peers) = choose|
        reflected: Seq<SocketAddr>,
        from_peers: Seq<SocketAddr>,
    |
        {
            &&& #[trigger] ranking(reflected, reflector_reports, interfaces)
            &&& #[trigger] ranking(from_peers, peer_reports, interfaces)
            &&& list == at_most(
                first_occurrences(offered(mapping, interfaces, reflected, from_peers)),
                MAX_CANDIDATES as nat,
            )
        };
    let base = own_addresses(mapping, interfaces) + at_most(reflected, REFLEXIVE_MAX as nat);
    let rest = at_most(
        from_peers.filter(|a: SocketAddr| !reflected.contains(a)),
        REFLEXIVE_MAX as nat,
    );
    assert(base + rest =~= offered(mapping, interfaces, reflected, from_peers));
    lemma_first_occurrences_extends(base, rest);
}

/// Whether `a` may stand before `b` among the interface addresses: IPv4 before
/// IPv6, then by the written form.
pub open spec fn interface_order(a: SocketAddr, b: SocketAddr) -> bool {
    ||| a.ip is V4 && b.ip is V6
    ||| a.ip is V4 == b.ip is V4 && text_le(a.ip.text(), b.ip.text())
}

/// `list` is the list of interface addresses on one port, each once and in
/// order.
pub open spec fn interface_list(list: Seq<SocketAddr>, addresses: Seq<IpAddr>, port: u16) -> bool {
    &&& distinct(list)
    &&& forall|a: SocketAddr| #[trigger]
        list.contains(a) <==> addresses.contains(a.ip) && a.port == port
    &&& forall|i: int, j: int|
        0 <= i < j < list.len() ==> interface_order(#[trigger] list[i], #[trigger] list[j])
}

fn interface_not_after(a: SocketAddr, b: SocketAddr) -> (r: bool)
    ensures
        r == interface_order(a, b),
{
    if a.ip.is_ipv4() != b.ip.is_ipv4() {
        return a.ip.is_ipv4();
    }
    let s = a.ip.to_text();
    let t = b.ip.to_text();
    text_not_after(s.as_str(), t.as_str())
}

proof fn lemma_interface_order(a: SocketAddr, b: SocketAddr, c: SocketAddr)
    ensures
        interface_order(a, b) || interface_order(b, a),
        interface_order(a, b) && interface_order(b, c) ==> interface_order(a, c),
{
    text_order_is_total(a.ip.text(), b.ip.text());
    if text_le(a.ip.text(), b.ip.text()) && text_le(b.ip.text(), c.ip.text()) {
        text_order_is_transitive(a.ip.text(), b.ip.text(), c.ip.text());
    }
}

/// The interface addresses on one port, each once and in order.
pub fn interface_addresses(addresses: &Vec<IpAddr>, port: u16) -> (list: Vec<SocketAddr>)
    ensures
        interface_list(list@, addresses@, port),
{
    let mut list: Vec<SocketAddr> = Vec::new();
    let ghost order = |a: SocketAddr, b: SocketAddr| interface_order(a, b);
    let mut i: usize = 0;
    while i < addresses.len()
        invariant
            i <= addresses@.len(),
            order == (|a: SocketAddr, b: SocketAddr| interface_order(a, b)),
            interface_list(list@, addresses@.take(i as int), port),
        decreases addresses@.len() - i,
    {
        let addr = SocketAddr { ip: addresses[i], port };
        let ghost seen = addresses@.take(i as int);
        let ghost before = list@;
        let skip = holds(&list, addr);
        if !skip {
            let mut at: usize = 0;
            while at < list.len() && interface_not_after(list[at], addr)
                invariant
                    at <= list@.len(),
                    list@ == before,
                    forall|p: int| 0 <= p < at ==> interface_order(#[trigger] list@[p], addr),
                decreases list@.len() - at,
            {
                at = at + 1;
            }
            proof {
                assert forall|p: int| at <= p < before.len() implies order(
                    addr,
                    #[trigger] before[p],
                ) by {
                    lemma_interface_order(addr, before[at as int], before[p]);
                }
                assert forall|p: int| 0 <= p < at implies order(#[trigger] before[p], addr) by {}
                assert forall|p: int, q: int| 0 <= p < q < before.len() implies order(
                    #[trigger] before[p],
                    #[trigger] before[q],
                ) by {}
            }
            list.insert(at, addr);
            proof {
                lemma_insert(before, list@, at as int, addr, order);
                assert forall|p: int, q: int| 0 <= p < q < list@.len() implies interface_order(
                    #[trigger] list@[p],
                    #[trigger] list@[q],
                ) by {
                    assert(order(list@[p], list@[q]));
                }
            }
        }
        proof {
            let now = addresses@.take(i + 1);
            assert(now =~= seen.push(addr.ip));
            assert forall|a: SocketAddr| #[trigger] list@.contains(a) <==> now.contains(a.ip)
                && a.port == port by {
                assert(before.contains(a) <==> seen.contains(a.ip) && a.port == port);
                if now.contains(a.ip) {
                    let k = choose|k: int| 0 <= k < now.len() && now[k] == a.ip;
                    if k < seen.len() {
                        assert(seen[k] == a.ip);
                    }
                }
                if seen.contains(a.ip) {
                    let k = choose|k: int| 0 <= k < seen.len() && seen[k] == a.ip;
                    assert(now[k] == a.ip);
                }
                assert(now[seen.len() as int] == addr.ip);
                if a == addr && !skip {
                    assert(list@.contains(addr));
                }
            }
        }
        i = i + 1;
    }
    assert(addresses@.take(i as int) =~= addresses@);
    list
}

/// What a list of the interfaces' addresses is: each address once, with the port,
/// and nothing else; those of IPv4 before those of IPv6, and each family in the
/// dictionary order of how they are written.
pub open spec fn is_listed(
    list: Seq<SocketAddr>,
    addresses: Seq<IpAddr>,
    port: u16,
    i: int,
    j: int,
    ip: IpAddr,
) -> bool {
    &&& addresses.contains(ip) <==> list.contains(SocketAddr { ip, port })
    &&& 0 <= i < list.len() ==> list[i].port == port && addresses.contains(list[i].ip)
    &&& 0 <= i < j < list.len() ==> {
        &&& list[i] != list[j]
        &&& list[i].ip is V6 ==> list[j].ip is V6
        &&& (list[i].ip is V4 <==> list[j].ip is V4) ==> text_le(
            list[i].ip.text(),
            list[j].ip.text(),
        )
    }
}

/// A list of the interfaces' addresses is what it should be.
pub proof fn lemma_is_listed(
    list: Seq<SocketAddr>,
    addresses: Seq<IpAddr>,
    port: u16,
    i: int,
    j: int,
    ip: IpAddr,
)
    requires
        interface_list(list, addresses, port),
    ensures
        is_listed(list, addresses, port, i, j, ip),
{
    if 0 <= i < list.len() {
        assert(list.contains(list[i]));
    }
    if 0 <= i < j < list.len() {
        assert(interface_order(list[i], list[j]));
    }
}

/// Every interface address is advertised once, with the port, IPv4 first.
pub proof fn every_interface_is_listed_once(
    addresses: &Vec<IpAddr>,
    port: u16,
    list: Vec<SocketAddr>,
    i: int,
    j: int,
    ip: IpAddr,
    held: bool,
)
    requires
        call_ensures(interface_addresses, (addresses, port), list),
        call_ensures(holds, (&list, SocketAddr { ip, port }), held),
    ensures
        is_listed(list@, addresses@, port, i, j, ip),
        held == addresses@.contains(ip),
{
    lemma_is_listed(list@, addresses@, port, i, j, ip);
}

/// How many of the reports are of `a`.
pub open spec fn reports_of(reports: Seq<SocketAddr>, a: SocketAddr) -> nat {
    reports.filter(|x: SocketAddr| x == a).len()
}

proof fn lemma_votes(reports: Seq<SocketAddr>, a: SocketAddr)
    ensures
        votes(reports, a) == reports_of(reports, a),
    decreases reports.len(),
{
    reveal(Seq::filter);
    if reports.len() > 0 {
        lemma_votes(reports.drop_last(), a);
    }
}

/// Addresses are ranked by how many have reported them, ties by how they are
/// written. Each is ranked once, and none of our own is.
pub proof fn an_address_is_ranked_by_its_reports(
    reports: &Vec<SocketAddr>,
    own: &Vec<SocketAddr>,
    list: Vec<SocketAddr>,
    a: SocketAddr,
    i: int,
    j: int,
)
    requires
        call_ensures(rank, (reports, own), list),
    ensures
        list@.contains(a) <==> reports@.contains(a) && !own@.contains(a),
        0 <= i < j < list@.len() ==> {
            let x = reports_of(reports@, list@[i]);
            let y = reports_of(reports@, list@[j]);
            &&& list@[i] != list@[j]
            &&& x >= y
            &&& x == y ==> text_le(list@[i].text(), list@[j].text())
        },
{
    if 0 <= i < j < list@.len() {
        lemma_votes(reports@, list@[i]);
        lemma_votes(reports@, list@[j]);
        assert(ranks(reports@, list@[i], list@[j]));
    }
}

proof fn lemma_filtered(s: Seq<SocketAddr>, keep: spec_fn(SocketAddr) -> bool, a: SocketAddr)
    ensures
        s.filter(keep).len() <= s.len(),
        s.filter(keep).contains(a) <==> s.contains(a) && keep(a),
    decreases s.len(),
{
    reveal(Seq::filter);
    let all = s.filter(keep);
    if s.len() > 0 {
        let init = s.drop_last();
        lemma_filtered(init, keep, a);
        let before = init.filter(keep);
        if all.contains(a) {
            let k = choose|k: int| 0 <= k < all.len() && all[k] == a;
            if k < before.len() {
                assert(before[k] == a);
                let n = choose|n: int| 0 <= n < init.len() && init[n] == a;
                assert(s[n] == a);
            } else {
                assert(s[s.len() - 1] == a);
            }
        }
        if s.contains(a) && keep(a) {
            let n = choose|n: int| 0 <= n < s.len() && s[n] == a;
            if n < init.len() {
                assert(init[n] == a);
                let k = choose|k: int| 0 <= k < before.len() && before[k] == a;
                assert(all[k] == a);
            } else {
                assert(all[all.len() - 1] == a);
            }
        }
    }
}

proof fn lemma_ranked_len(list: Seq<SocketAddr>, reports: Seq<SocketAddr>, own: Seq<SocketAddr>)
    requires
        ranking(list, reports, own),
    ensures
        list.len() <= reports.len(),
{
    assert(list.no_duplicates());
    list.unique_seq_to_set();
    assert(list.to_set().subset_of(reports.to_set())) by {
        assert forall|a: SocketAddr| list.to_set().contains(a) implies reports.to_set().contains(
            a,
        ) by {
            assert(list.contains(a));
        }
    }
    reports.lemma_cardinality_of_set();
    vstd::set_lib::lemma_len_subset(list.to_set(), reports.to_set());
}

proof fn lemma_first_stays(s: Seq<SocketAddr>)
    requires
        s.len() > 0,
    ensures
        first_occurrences(s).len() > 0,
        first_occurrences(s)[0] == s[0],
    decreases s.len(),
{
    if s.len() > 1 {
        lemma_first_stays(s.drop_last());
    } else {
        assert(first_occurrences(s.drop_last()) =~= Seq::<SocketAddr>::empty());
        assert(!first_occurrences(s.drop_last()).contains(s.last()));
    }
}

/// What a list of candidates is over the addresses that are known.
pub proof fn lemma_known(
    mapping: Option<SocketAddr>,
    interfaces: Seq<SocketAddr>,
    reflectors: Seq<SocketAddr>,
    peers: Seq<SocketAddr>,
    list: Seq<SocketAddr>,
    a: SocketAddr,
    i: int,
    j: int,
)
    requires
        candidate_list(list, mapping, interfaces, reflectors, peers),
    ensures
        list.len() <= 16,
        0 <= i < j < list.len() ==> list[i] != list[j],
        list.contains(a) ==> mapping == Some(a) || interfaces.contains(a) || reflectors.contains(
            a,
        ) || peers.contains(a),
        mapping is Some ==> list.len() > 0 && list[0] == mapping->0,
        interfaces.len() < 16 && (mapping == Some(a) || interfaces.contains(a))
            ==> list.contains(a),
        interfaces.len() + 9 <= 16 && reflectors.len() <= 4 && reflectors.contains(a)
            ==> list.contains(a),
        interfaces.len() + 9 <= 16 && reflectors.len() <= 4 && peers.len() <= 4
            && peers.contains(a) ==> list.contains(a),
{
    let (reflected, from_peers) = choose|reflected: Seq<SocketAddr>, from_peers: Seq<SocketAddr>|
        {
            &&& #[trigger] ranking(reflected, reflectors, interfaces)
            &&& #[trigger] ranking(from_peers, peers, interfaces)
            &&& list == at_most(
                first_occurrences(offered(mapping, interfaces, reflected, from_peers)),
                16,
            )
        };
    assert(ranking(reflected, reflectors, interfaces));
    assert(ranking(from_peers, peers, interfaces));
    let own = own_addresses(mapping, interfaces);
    let others = from_peers.filter(|x: SocketAddr| !reflected.contains(x));
    let r = at_most(reflected, 4);
    let p = at_most(others, 4);
    let all = own + r + p;
    assert(all =~= offered(mapping, interfaces, reflected, from_peers));
    let firsts = first_occurrences(all);
    lemma_first_occurrences_contains(all);
    lemma_filtered(from_peers, |x: SocketAddr| !reflected.contains(x), a);
    assert(all.len() <= own.len() + 8);
    if list.contains(a) {
        let k = choose|k: int| 0 <= k < list.len() && list[k] == a;
        assert(firsts[k] == a);
        assert(firsts.contains(a));
        let n = choose|n: int| 0 <= n < all.len() && all[n] == a;
        if n < own.len() {
            assert(own[n] == a);
            if mapping is Some {
                if n > 0 {
                    assert(interfaces[n - 1] == a);
                }
            } else {
                assert(interfaces[n] == a);
            }
        } else if n < own.len() + r.len() {
            assert(reflected[n - own.len()] == a);
            assert(reflected.contains(a));
        } else {
            assert(others[n - own.len() - r.len()] == a);
            assert(others.contains(a));
            assert(from_peers.contains(a));
        }
    }
    lemma_first_occurrences_extends(own, r + p);
    assert(own + (r + p) =~= all);
    lemma_first_occurrences_contains(own);
    let front = first_occurrences(own);
    if mapping is Some {
        assert(own[0] == mapping->0);
        lemma_first_stays(own);
        assert(front[0] == firsts[0]);
    }
    if interfaces.len() < 16 && (mapping == Some(a) || interfaces.contains(a)) {
        if mapping == Some(a) {
            assert(own[0] == a);
        } else {
            let n = choose|n: int| 0 <= n < interfaces.len() && interfaces[n] == a;
            assert(own[own.len() - interfaces.len() + n] == a);
        }
        assert(own.contains(a));
        assert(front.contains(a));
        let k = choose|k: int| 0 <= k < front.len() && front[k] == a;
        assert(firsts[k] == front[k]);
        assert(list[k] == a);
    }
    if interfaces.len() + 9 <= 16 {
        assert(list =~= firsts);
        if reflectors.len() <= 4 && reflectors.contains(a) && !interfaces.contains(a) {
            assert(reflected.contains(a));
            lemma_ranked_len(reflected, reflectors, interfaces);
            let k = choose|k: int| 0 <= k < reflected.len() && reflected[k] == a;
            assert(all[own.len() + k] == a);
            assert(firsts.contains(a));
        }
        if reflectors.len() <= 4 && peers.len() <= 4 && peers.contains(a)
            && !interfaces.contains(a) && !reflectors.contains(a) {
            assert(!reflected.contains(a));
            assert(from_peers.contains(a));
            lemma_ranked_len(from_peers, peers, interfaces);
            assert(others.contains(a));
            let k = choose|k: int| 0 <= k < others.len() && others[k] == a;
            assert(p[k] == a);
            assert(all[own.len() + r.len() + k] == a);
            assert(firsts.contains(a));
        }
    }
}

/// The candidates are no more than sixteen, none twice, and only addresses that
/// are known: the mapping, an interface's, or a reported one. While there is room
/// for all, every address of our own is among them, and so is every reported one
/// as long as no more than four are reported to us from each side.
pub proof fn candidates_are_what_is_known(
    mapping: Option<SocketAddr>,
    interfaces: &Vec<SocketAddr>,
    reflectors: &Vec<SocketAddr>,
    peers: &Vec<SocketAddr>,
    list: Vec<SocketAddr>,
    a: SocketAddr,
    i: int,
    j: int,
)
    requires
        call_ensures(candidates, (mapping, interfaces, reflectors, peers), list),
    ensures
        list@.len() <= 16,
        0 <= i < j < list@.len() ==> list@[i] != list@[j],
        list@.contains(a) ==> mapping == Some(a) || interfaces@.contains(a) || reflectors@.contains(
            a,
        ) || peers@.contains(a),
        mapping is Some ==> list@.len() > 0 && list@[0] == mapping->0,
        interfaces@.len() < 16 && (mapping == Some(a) || interfaces@.contains(a))
            ==> list@.contains(a),
        interfaces@.len() + 9 <= 16 && reflectors@.len() <= 4 && reflectors@.contains(a)
            ==> list@.contains(a),
        interfaces@.len() + 9 <= 16 && reflectors@.len() <= 4 && peers@.len() <= 4
            && peers@.contains(a) ==> list@.contains(a),
{
    lemma_known(mapping, interfaces@, reflectors@, peers@, list@, a, i, j);
}

/// Candidates stand in the order of what is behind them: our own addresses
/// first, then those that reflectors reported, then those of peers alone.
pub proof fn candidates_are_graded(
    mapping: Option<SocketAddr>,
    interfaces: &Vec<SocketAddr>,
    reflectors: &Vec<SocketAddr>,
    peers: &Vec<SocketAddr>,
    list: Vec<SocketAddr>,
    i: int,
    j: int,
)
    requires
        call_ensures(candidates, (mapping, interfaces, reflectors, peers), list),
        0 <= i < j < list@.len(),
    ensures
        ({
            let (a, b) = (list@[i], list@[j]);
            let own = mapping == Some(b) || interfaces@.contains(b);
            &&& own ==> mapping == Some(a) || interfaces@.contains(a)
            &&& !own && reflectors@.contains(b) ==> mapping == Some(a) || interfaces@.contains(a)
                || reflectors@.contains(a)
        }),
{
    let (reflected, from_peers) = choose|reflected: Seq<SocketAddr>, from_peers: Seq<SocketAddr>|
        {
            &&& #[trigger] ranking(reflected, reflectors@, interfaces@)
            &&& #[trigger] ranking(from_peers, peers@, interfaces@)
            &&& list@ == at_most(
                first_occurrences(offered(mapping, interfaces@, reflected, from_peers)),
                16,
            )
        };
    assert(ranking(reflected, reflectors@, interfaces@));
    assert(ranking(from_peers, peers@, interfaces@));
    let own = own_addresses(mapping, interfaces@);
    let others = from_peers.filter(|x: SocketAddr| !reflected.contains(x));
    let r = at_most(reflected, 4);
    let p = at_most(others, 4);
    let all = own + r + p;
    assert(all =~= offered(mapping, interfaces@, reflected, from_peers));
    let firsts = first_occurrences(all);
    let (a, b) = (list@[i], list@[j]);
    assert(firsts[i] == a && firsts[j] == b);
    lemma_first_occurrences_contains(all);
    lemma_first_occurrences_contains(own);
    lemma_first_occurrences_contains(own + r);
    assert(own + (r + p) =~= all);
    lemma_first_occurrences_extends(own, r + p);
    lemma_first_occurrences_extends(own + r, p);
    lemma_own(mapping, interfaces@, a);
    lemma_own(mapping, interfaces@, b);
    let x = first_occurrences(own);
    let y = first_occurrences(own + r);
    if own.contains(b) {
        assert(x.contains(b));
        let k = choose|k: int| 0 <= k < x.len() && x[k] == b;
        assert(firsts[k] == b);
        assert(k == j);
        assert(x[i] == a);
        assert(x.contains(a));
    } else if reflectors@.contains(b) {
        assert(reflected.contains(b));
        assert(firsts.contains(b));
        let n = choose|n: int| 0 <= n < all.len() && all[n] == b;
        if n >= own.len() + r.len() {
            lemma_filtered(from_peers, |x: SocketAddr| !reflected.contains(x), b);
            assert(others[n - own.len() - r.len()] == b);
            assert(others.contains(b));
        } else {
            assert((own + r)[n] == b);
        }
        assert((own + r).contains(b));
        assert(y.contains(b));
        let k = choose|k: int| 0 <= k < y.len() && y[k] == b;
        assert(firsts[k] == b);
        assert(k == j);
        assert(y[i] == a);
        assert(y.contains(a));
        assert((own + r).contains(a));
        let m = choose|m: int| 0 <= m < (own + r).len() && (own + r)[m] == a;
        if m < own.len() {
            assert(own[m] == a);
            assert(own.contains(a));
        } else {
            assert(reflected[m - own.len()] == a);
            assert(reflected.contains(a));
        }
    }
}

proof fn lemma_own(mapping: Option<SocketAddr>, interfaces: Seq<SocketAddr>, a: SocketAddr)
    ensures
        own_addresses(mapping, interfaces).contains(a) <==> mapping == Some(a)
            || interfaces.contains(a),
{
    let own = own_addresses(mapping, interfaces);
    if own.contains(a) {
        let k = choose|k: int| 0 <= k < own.len() && own[k] == a;
        if mapping is Some {
            if k > 0 {
                assert(interfaces[k - 1] == a);
            }
        }
    }
    if mapping == Some(a) {
        assert(own[0] == a);
    }
    if interfaces.contains(a) {
        let k = choose|k: int| 0 <= k < interfaces.len() && interfaces[k] == a;
        assert(own[own.len() - interfaces.len() + k] == a);
    }
}

} // verus!

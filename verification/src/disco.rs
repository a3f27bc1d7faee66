//! Path discovery on the datapath socket.
//!
//! Discovery shares the node's UDP socket with the data plane, so every
//! arriving datagram belongs to one of two protocols and something has to
//! decide which. What separates them is not the magic at the front, which a
//! data-plane datagram carries by chance now and then, but that both protocols
//! are authenticated: whatever discovery cannot authenticate is handed on.
//!
//! The probe schedule, the codec, and the keys live outside; this module holds
//! what discovery knows of each peer and each reflector, and decides what to
//! send, what to believe, and what to change on the datapath.

use crate::addr::{IpAddr, SocketAddr};
use crate::bytes::Bytes;
use crate::candidates::{candidate_list, candidates, interface_addresses, interface_list};
use crate::text::{decimal, decimal_text};
use vstd::prelude::*;

verus! {

/// A transaction id.
pub type TxId = Bytes<12>;

/// A node id.
pub type NodeId = Bytes<32>;

/// The tag that a sender presents.
pub type Tag = Bytes<8>;

/// Most reflectors this node talks to at once.
pub const REFLECTORS_MAX: usize = 4;

/// A relay's reflector.
#[derive(Debug)]
pub struct Reflector {
    /// The relay that offered it.
    pub relay_id: NodeId,
    /// The tag that goes with its key.
    pub tag: Tag,
    /// Where to send a request.
    pub endpoint: SocketAddr,
    /// Requests sent and not yet answered, with when each went out.
    pub outstanding: Vec<(TxId, u64)>,
    /// The address this reflector last reported seeing this node at.
    pub observed: Option<SocketAddr>,
    /// When a request last went out.
    pub last_ms: Option<u64>,
}

/// A reflector as a value.
#[verifier::ext_equal]
pub struct Reflecting {
    pub relay_id: NodeId,
    pub tag: Tag,
    pub endpoint: SocketAddr,
    pub outstanding: Seq<(TxId, u64)>,
    pub observed: Option<SocketAddr>,
    pub last_ms: Option<u64>,
}

impl View for Reflector {
    type V = Reflecting;

    open spec fn view(&self) -> Reflecting {
        Reflecting {
            relay_id: self.relay_id,
            tag: self.tag,
            endpoint: self.endpoint,
            outstanding: self.outstanding@,
            observed: self.observed,
            last_ms: self.last_ms,
        }
    }
}

/// What discovery knows of one peer.
#[derive(Clone, Copy, Debug)]
pub struct Peer {
    /// The peer's place in the roster.
    pub route_index: usize,
    /// The peer's node id, by which a relay addresses it.
    pub their_id: NodeId,
    /// The tag that this peer presents.
    pub their_tag: Tag,
    /// The endpoint the datapath holds for this peer, as far as discovery is
    /// concerned.
    pub installed: Option<SocketAddr>,
    /// The address this peer most recently reported seeing this node at: one
    /// slot, so a peer that lies costs one vote.
    pub reflexive: Option<SocketAddr>,
    /// Whether the port search is running for this peer.
    pub searching: bool,
}

/// Path discovery for every peer this node holds a key for.
#[derive(Debug)]
pub struct Disco {
    pub peers: Vec<Peer>,
    /// Node ids as relays stamp them, with the peer each names; a later entry
    /// replaces an earlier one for the same id.
    pub relay_peers: Vec<(NodeId, usize)>,
    pub epoch: u32,
    pub interfaces: Vec<SocketAddr>,
    pub explicit_mapping: Option<SocketAddr>,
    pub reflectors: Vec<Reflector>,
}

/// A change the datapath must make to one peer's endpoint.
#[derive(Clone, Copy, Debug, PartialEq, Eq, Structural)]
pub enum PathChange {
    /// A direct path was confirmed.
    Install { peer: usize, endpoint: SocketAddr },
    /// Discovery has given up on every path to this peer, and withdraws the one
    /// that it had installed.
    Release { peer: usize, installed: SocketAddr },
}

/// What the probe schedule says of one peer.
#[derive(Clone, Copy, Debug, PartialEq, Eq, Structural)]
pub struct Scheduled {
    /// The confirmed path in use.
    pub chosen: Option<SocketAddr>,
    /// Every probe has been sent and none was answered.
    pub exhausted: bool,
}

/// The peer with `tag`, searched from the first.
pub open spec fn tag_owner(peers: Seq<Peer>, tag: Tag) -> Option<usize>
    decreases peers.len(),
{
    if peers.len() == 0 {
        None
    } else {
        match tag_owner(peers.drop_last(), tag) {
            Some(i) => Some(i),
            None => if peers.last().their_tag == tag {
                Some((peers.len() - 1) as usize)
            } else {
                None
            },
        }
    }
}

/// The peer that the last entry for `id` names.
pub open spec fn relay_owner(entries: Seq<(NodeId, usize)>, id: NodeId) -> Option<usize>
    decreases entries.len(),
{
    if entries.len() == 0 {
        None
    } else if entries.last().0 == id {
        Some(entries.last().1)
    } else {
        relay_owner(entries.drop_last(), id)
    }
}

/// The reflector that `relay_id` offered.
pub open spec fn reflector_of(reflectors: Seq<Reflector>, relay_id: NodeId) -> bool {
    exists|k: int| 0 <= k < reflectors.len() && (#[trigger] reflectors[k]).relay_id == relay_id
}

/// The addresses that peers reported, in roster order.
pub open spec fn peer_reports(peers: Seq<Peer>) -> Seq<SocketAddr>
    decreases peers.len(),
{
    if peers.len() == 0 {
        seq![]
    } else {
        match peers.last().reflexive {
            Some(a) => peer_reports(peers.drop_last()).push(a),
            None => peer_reports(peers.drop_last()),
        }
    }
}

/// The addresses that reflectors reported.
pub open spec fn reflector_reports(reflectors: Seq<Reflector>) -> Seq<SocketAddr>
    decreases reflectors.len(),
{
    if reflectors.len() == 0 {
        seq![]
    } else {
        match reflectors.last().observed {
            Some(a) => reflector_reports(reflectors.drop_last()).push(a),
            None => reflector_reports(reflectors.drop_last()),
        }
    }
}

/// The withdrawals of everything that is installed, in roster order.
pub open spec fn releases(peers: Seq<Peer>) -> Seq<PathChange>
    decreases peers.len(),
{
    if peers.len() == 0 {
        seq![]
    } else {
        let p = peers.last();
        match p.installed {
            Some(installed) => releases(peers.drop_last()).push(
                PathChange::Release { peer: p.route_index, installed },
            ),
            None => releases(peers.drop_last()),
        }
    }
}

/// What the datapath must change for one peer, if anything.
///
/// A confirmed path replaces whatever was installed. An installed path is
/// withdrawn only once discovery has given up: before that, nothing chosen
/// means not confirmed yet.
pub open spec fn path_change(peer: Peer, fact: Scheduled) -> Option<PathChange> {
    if fact.chosen == peer.installed {
        None
    } else {
        match (peer.installed, fact.chosen) {
            (_, Some(endpoint)) => Some(
                PathChange::Install { peer: peer.route_index, endpoint },
            ),
            (Some(installed), None) => if fact.exhausted {
                Some(PathChange::Release { peer: peer.route_index, installed })
            } else {
                None
            },
            (None, None) => None,
        }
    }
}

/// What is installed for a peer once its change has been made.
pub open spec fn installed_after(peer: Peer, fact: Scheduled) -> Option<SocketAddr> {
    match path_change(peer, fact) {
        Some(PathChange::Install { endpoint, .. }) => Some(endpoint),
        Some(PathChange::Release { .. }) => None,
        None => peer.installed,
    }
}

/// The changes for all peers, in roster order.
pub open spec fn changes(peers: Seq<Peer>, facts: Seq<Scheduled>) -> Seq<PathChange>
    decreases peers.len(),
{
    if peers.len() == 0 {
        seq![]
    } else {
        let before = changes(peers.drop_last(), facts.drop_last());
        match path_change(peers.last(), facts.last()) {
            Some(c) => before.push(c),
            None => before,
        }
    }
}

/// The front of a discovery datagram.
#[derive(Clone, Copy, Debug)]
pub struct Header {
    /// Whether the message belongs to the reflect key space.
    pub reflect: bool,
    pub epoch: u32,
    pub tag: Tag,
}

/// Which key, if any, a datagram is to be opened with.
#[derive(Clone, Copy, Debug, PartialEq, Eq, Structural)]
pub enum Lookup {
    /// Not a discovery datagram that this node can authenticate.
    NotAven,
    /// The key shared with this peer.
    Peer(usize),
    /// The key of this reflector.
    Reflector(usize),
}

/// A message that authenticated.
#[derive(Clone, Debug)]
pub enum Message {
    Ping { tx: TxId },
    Pong { tx: TxId, observed: SocketAddr },
    CallMeMaybe { candidates: Vec<SocketAddr> },
    Reflect { tx: TxId },
    Reflection { tx: TxId, observed: SocketAddr },
}

/// What an authenticated message asks of the probe schedule.
#[derive(Clone, Debug)]
pub enum Instruction {
    /// Nothing.
    Nothing,
    /// Add the source as a candidate; if the transaction id is new, answer it
    /// with the observed source.
    Answer { candidate: SocketAddr, tx: TxId, observed: SocketAddr },
    /// Look the transaction id up among the probes that were sent.
    Confirm { tx: TxId },
    /// Accept the advertised candidates.
    Accept { candidates: Vec<SocketAddr> },
}

/// The kind of a path.
#[derive(Clone, Copy, Debug, PartialEq, Eq, Structural)]
pub enum PathKind {
    DirectV4,
    DirectV6,
    /// Through a relay, which no port search is for.
    Relay,
}

/// A `Pong` to seal with the key of `peer` and send to `to`.
#[derive(Clone, Copy, Debug)]
pub struct Reply {
    pub peer: usize,
    pub tx: TxId,
    pub observed: SocketAddr,
    pub to: SocketAddr,
}

/// What to do with an arriving datagram.
#[derive(Debug)]
pub enum Verdict {
    /// Discovery authenticated it and handled it. Any reply is here.
    Handled(Vec<Reply>),
    /// Not discovery's: offer it to the data plane. Why is deliberately not
    /// said, since saying so would make a node an oracle for the peers it
    /// holds keys for.
    NotAven,
}

/// What a transaction id in a `Pong` confirms.
#[derive(Clone, Copy, Debug, PartialEq, Eq, Structural)]
pub enum Confirmation {
    /// Nothing: neither table knows the id.
    Nothing,
    /// The path that the probe went to.
    Path(SocketAddr),
    /// The port that the search probe went to, as a new candidate.
    Searched { addr: SocketAddr, kind: PathKind },
}

/// What discovery wants sealed and sent on the shared socket.
#[derive(Clone, Copy, Debug, PartialEq, Eq)]
pub enum Request {
    Ping { tx: TxId },
    Reflect { tx: TxId },
}

/// Whose key seals a message.
#[derive(Clone, Copy, Debug, PartialEq, Eq, Structural)]
pub enum Key {
    Peer(usize),
    Reflector(usize),
}

/// One datagram for the shared socket.
#[derive(Clone, Copy, Debug)]
pub struct Datagram {
    pub key: Key,
    pub request: Request,
    pub to: SocketAddr,
}

/// One candidate advertisement for the relay, addressed by node id.
#[derive(Clone, Debug)]
pub struct Advertisement {
    pub peer: usize,
    pub to: NodeId,
    pub candidates: Vec<SocketAddr>,
}

/// One datagram that must leave from a fresh socket.
#[derive(Clone, Copy, Debug)]
pub struct Scratch {
    pub route_index: usize,
    pub datagram: Datagram,
}

/// What one poll of discovery wants put on the wire.
#[derive(Debug)]
pub struct Outbound {
    pub datagrams: Vec<Datagram>,
    pub relayed: Vec<Advertisement>,
    pub scratch: Vec<Scratch>,
}

/// The limits that the protocol sets on requests to a reflector.
#[derive(Clone, Copy, Debug, PartialEq, Eq, Structural)]
pub struct Limits {
    /// How long a request stays outstanding.
    pub tx_timeout_ms: u64,
    /// How long to wait between requests.
    pub reflect_interval_ms: u64,
    /// Most requests outstanding at once.
    pub max_outstanding: usize,
}

/// The time from `then` to `now`; zero when the clock ran backwards.
pub open spec fn age(now: u64, then: u64) -> nat {
    if now >= then {
        (now - then) as nat
    } else {
        0
    }
}

/// The requests that have not timed out.
pub open spec fn unexpired(outstanding: Seq<(TxId, u64)>, now: u64, timeout: u64) -> Seq<
    (TxId, u64),
> {
    outstanding.filter(|e: (TxId, u64)| age(now, e.1) < timeout)
}

/// The requests with ids other than `tx`.
pub open spec fn without(outstanding: Seq<(TxId, u64)>, tx: TxId) -> Seq<(TxId, u64)> {
    outstanding.filter(not_for(tx))
}

/// Whether a request has an id other than `tx`.
pub open spec fn not_for(tx: TxId) -> spec_fn((TxId, u64)) -> bool {
    |e: (TxId, u64)| e.0 != tx
}

/// Whether a request with id `tx` is outstanding.
pub open spec fn awaits(outstanding: Seq<(TxId, u64)>, tx: TxId) -> bool {
    exists|i: int| 0 <= i < outstanding.len() && (#[trigger] outstanding[i]).0 == tx
}

/// A reflector after a tick: expired requests are gone, and a new one is
/// outstanding if one was due.
pub open spec fn ticked(r: Reflecting, now: u64, limits: Limits, tx: TxId) -> Reflecting {
    let kept = unexpired(r.outstanding, now, limits.tx_timeout_ms);
    if asks(r, now, limits) {
        Reflecting {
            outstanding: without(kept, tx).push((tx, now)),
            last_ms: Some(now),
            ..r
        }
    } else {
        Reflecting { outstanding: kept, ..r }
    }
}

/// Whether a tick sends a request: the interval has passed and there is room.
pub open spec fn asks(r: Reflecting, now: u64, limits: Limits) -> bool {
    &&& r.last_ms is Some ==> age(now, r.last_ms->0) >= limits.reflect_interval_ms
    &&& unexpired(r.outstanding, now, limits.tx_timeout_ms).len() < limits.max_outstanding
}

/// The requests of one tick, reflector by reflector.
pub open spec fn reflect_requests(
    reflectors: Seq<Reflector>,
    now: u64,
    limits: Limits,
    ids: Seq<TxId>,
) -> Seq<Datagram>
    decreases reflectors.len(),
{
    if reflectors.len() == 0 {
        seq![]
    } else {
        let k = reflectors.len() - 1;
        let before = reflect_requests(reflectors.drop_last(), now, limits, ids);
        if asks(reflectors[k]@, now, limits) {
            before.push(
                Datagram {
                    key: Key::Reflector(k as usize),
                    request: Request::Reflect { tx: ids[k] },
                    to: reflectors[k].endpoint,
                },
            )
        } else {
            before
        }
    }
}

/// `outstanding` without the requests that have timed out.
fn expire(outstanding: &Vec<(TxId, u64)>, now: u64, timeout: u64) -> (kept: Vec<(TxId, u64)>)
    ensures
        kept@ == unexpired(outstanding@, now, timeout),
{
    let mut kept: Vec<(TxId, u64)> = Vec::new();
    let ghost live = |e: (TxId, u64)| age(now, e.1) < timeout;
    let mut i: usize = 0;
    proof {
        reveal(Seq::filter);
        assert(outstanding@.take(0).filter(live) =~= seq![]);
    }
    while i < outstanding.len()
        invariant
            i <= outstanding@.len(),
            live == (|e: (TxId, u64)| age(now, e.1) < timeout),
            kept@ == outstanding@.take(i as int).filter(live),
        decreases outstanding@.len() - i,
    {
        let entry = outstanding[i];
        proof {
            reveal(Seq::filter);
            assert(outstanding@.take(i + 1).drop_last() =~= outstanding@.take(i as int));
            assert(outstanding@.take(i + 1).last() == entry);
        }
        if now.saturating_sub(entry.1) < timeout {
            kept.push(entry);
        }
        i = i + 1;
    }
    assert(outstanding@.take(i as int) =~= outstanding@);
    kept
}

/// `outstanding` without the request `tx`, and whether it was there.
fn take_request(outstanding: &Vec<(TxId, u64)>, tx: TxId) -> (r: (Vec<(TxId, u64)>, bool))
    ensures
        r.0@ == without(outstanding@, tx),
        r.1 == awaits(outstanding@, tx),
{
    let mut kept: Vec<(TxId, u64)> = Vec::new();
    let mut found = false;
    let ghost other = not_for(tx);
    let mut i: usize = 0;
    proof {
        reveal(Seq::filter);
        assert(outstanding@.take(0).filter(other) =~= seq![]);
    }
    while i < outstanding.len()
        invariant
            i <= outstanding@.len(),
            other == not_for(tx),
            kept@ == outstanding@.take(i as int).filter(other),
            found == awaits(outstanding@.take(i as int), tx),
        decreases outstanding@.len() - i,
    {
        let entry = outstanding[i];
        let ghost seen = outstanding@.take(i as int);
        let ghost now = outstanding@.take(i + 1);
        proof {
            reveal(Seq::filter);
            assert(now.drop_last() =~= seen);
            assert(now.last() == entry);
            if awaits(seen, tx) {
                let k = choose|k: int| 0 <= k < seen.len() && (#[trigger] seen[k]).0 == tx;
                assert(now[k].0 == tx);
            }
        }
        if entry.0 == tx {
            found = true;
            assert(now[i as int].0 == tx);
        } else {
            kept.push(entry);
            proof {
                if awaits(now, tx) {
                    let k = choose|k: int| 0 <= k < now.len() && (#[trigger] now[k]).0 == tx;
                    assert(seen[k].0 == tx);
                }
            }
        }
        i = i + 1;
    }
    assert(outstanding@.take(i as int) =~= outstanding@);
    (kept, found)
}

impl Reflector {
    /// Runs one tick: expires old requests, and asks again if it is time.
    fn tick(&mut self, now: u64, limits: Limits, tx: TxId) -> (due: bool)
        ensures
            due == asks(old(self)@, now, limits),
            final(self)@ == ticked(old(self)@, now, limits, tx),
    {
        let kept = expire(&self.outstanding, now, limits.tx_timeout_ms);
        let waited = match self.last_ms {
            Some(t) => now.saturating_sub(t) >= limits.reflect_interval_ms,
            None => true,
        };
        if !waited || kept.len() >= limits.max_outstanding {
            self.outstanding = kept;
            return false;
        }
        let (mut next, _) = take_request(&kept, tx);
        next.push((tx, now));
        self.outstanding = next;
        self.last_ms = Some(now);
        true
    }
}

/// What the probe schedule wants of one peer.
#[derive(Clone, Debug)]
pub enum Action {
    Probe { addr: SocketAddr, tx: TxId },
    Advertise { candidates: Vec<SocketAddr> },
}

/// One round of the port search.
#[derive(Clone, Debug)]
pub struct Round {
    /// Where every scratch datagram goes.
    pub toward: SocketAddr,
    /// One id for each scratch datagram.
    pub scratch: Vec<TxId>,
    /// The ports to probe, with the id of each probe.
    pub probes: Vec<(SocketAddr, TxId)>,
}

/// The addresses of the paths that do not go through a relay, in order: a search
/// turns to each of them, because nothing tells which one a translator carries.
pub open spec fn direct_addresses(paths: Seq<(SocketAddr, PathKind)>) -> Seq<SocketAddr>
    decreases paths.len(),
{
    if paths.len() == 0 {
        seq![]
    } else {
        let before = direct_addresses(paths.drop_last());
        match paths.last().1 {
            PathKind::Relay => before,
            _ => before.push(paths.last().0),
        }
    }
}

/// What a port search is aimed at.
pub fn search_targets(paths: &Vec<(SocketAddr, PathKind)>) -> (targets: Vec<SocketAddr>)
    ensures
        targets@ == direct_addresses(paths@),
{
    let mut targets: Vec<SocketAddr> = Vec::new();
    let mut i: usize = 0;
    assert(targets@ =~= direct_addresses(paths@.take(0)));
    while i < paths.len()
        invariant
            i <= paths@.len(),
            targets@ == direct_addresses(paths@.take(i as int)),
        decreases paths@.len() - i,
    {
        assert(paths@.take(i + 1).drop_last() =~= paths@.take(i as int));
        if paths[i].1 != PathKind::Relay {
            targets.push(paths[i].0);
        }
        i = i + 1;
    }
    assert(paths@.take(i as int) =~= paths@);
    targets
}

/// What one tick of a peer's schedule produced.
#[derive(Clone, Debug)]
pub struct Tick {
    /// Whether a direct path was in use when the tick began.
    pub had_path: bool,
    /// Whether a direct path is in use now.
    pub direct: bool,
    /// Whether the ordinary probes have failed, so that a search may start.
    pub should_search: bool,
    pub actions: Vec<Action>,
    /// Every path that the schedule holds. A search is aimed at those that
    /// `search_targets` gives.
    pub paths: Vec<(SocketAddr, PathKind)>,
    /// The round that a running search produced.
    pub round: Option<Round>,
}

/// Whether the search runs for a peer after this tick: never beside a direct
/// path, and started only when there is something to search.
pub open spec fn searches(searching: bool, tick: Tick) -> bool {
    !tick.direct && (searching || (tick.should_search && direct_addresses(tick.paths@).len() > 0))
}

/// The probes among `actions`, sealed for peer `i`.
pub open spec fn probes(i: usize, actions: Seq<Action>) -> Seq<Datagram>
    decreases actions.len(),
{
    if actions.len() == 0 {
        seq![]
    } else {
        let before = probes(i, actions.drop_last());
        match actions.last() {
            Action::Probe { addr, tx } => before.push(ping(i, tx, addr)),
            Action::Advertise { .. } => before,
        }
    }
}

/// A ping from the key of peer `i`.
pub open spec fn ping(i: usize, tx: TxId, to: SocketAddr) -> Datagram {
    Datagram { key: Key::Peer(i), request: Request::Ping { tx }, to }
}

/// An advertisement as a value: the peer, its node id, and the candidates.
pub open spec fn advert(a: Advertisement) -> (usize, NodeId, Seq<SocketAddr>) {
    (a.peer, a.to, a.candidates@)
}

/// The advertisements among `actions`; an empty one says nothing and is left
/// out.
pub open spec fn adverts(i: usize, to: NodeId, actions: Seq<Action>) -> Seq<
    (usize, NodeId, Seq<SocketAddr>),
>
    decreases actions.len(),
{
    if actions.len() == 0 {
        seq![]
    } else {
        let before = adverts(i, to, actions.drop_last());
        match actions.last() {
            Action::Advertise { candidates } => if candidates@.len() > 0 {
                before.push((i, to, candidates@))
            } else {
                before
            },
            Action::Probe { .. } => before,
        }
    }
}

/// The probes of a search round.
pub open spec fn round_probes(i: usize, round: Option<Round>) -> Seq<Datagram> {
    match round {
        Some(r) => r.probes@.map_values(|p: (SocketAddr, TxId)| ping(i, p.1, p.0)),
        None => seq![],
    }
}

/// The scratch datagrams of a search round: all to one address.
pub open spec fn round_scratch(i: usize, route_index: usize, round: Option<Round>) -> Seq<
    Scratch,
> {
    match round {
        Some(r) => r.scratch@.map_values(
            |tx: TxId| Scratch { route_index, datagram: ping(i, tx, r.toward) },
        ),
        None => seq![],
    }
}

/// The datagrams that the peers' ticks produce, in roster order.
pub open spec fn tick_datagrams(peers: Seq<Peer>, ticks: Seq<Tick>) -> Seq<Datagram>
    decreases peers.len(),
{
    if peers.len() == 0 {
        seq![]
    } else {
        let i = (peers.len() - 1) as usize;
        let t = ticks[i as int];
        tick_datagrams(peers.drop_last(), ticks) + probes(i, t.actions@) + if searches(
            peers.last().searching,
            t,
        ) {
            round_probes(i, t.round)
        } else {
            seq![]
        }
    }
}

/// The advertisements that the peers' ticks produce, in roster order.
pub open spec fn tick_adverts(peers: Seq<Peer>, ticks: Seq<Tick>) -> Seq<
    (usize, NodeId, Seq<SocketAddr>),
>
    decreases peers.len(),
{
    if peers.len() == 0 {
        seq![]
    } else {
        let i = (peers.len() - 1) as usize;
        tick_adverts(peers.drop_last(), ticks) + adverts(
            i,
            peers.last().their_id,
            ticks[i as int].actions@,
        )
    }
}

/// The scratch datagrams that the peers' ticks produce, in roster order.
pub open spec fn tick_scratch(peers: Seq<Peer>, ticks: Seq<Tick>) -> Seq<Scratch>
    decreases peers.len(),
{
    if peers.len() == 0 {
        seq![]
    } else {
        let i = (peers.len() - 1) as usize;
        let t = ticks[i as int];
        tick_scratch(peers.drop_last(), ticks) + if searches(peers.last().searching, t) {
            round_scratch(i, peers.last().route_index, t.round)
        } else {
            seq![]
        }
    }
}

/// Whether some peer had no direct path when the tick began.
pub open spec fn some_unconnected(ticks: Seq<Tick>) -> bool {
    exists|i: int| 0 <= i < ticks.len() && !(#[trigger] ticks[i]).had_path
}

/// One peer of the control-plane roster, as far as discovery is concerned.
#[derive(Clone, Debug)]
pub struct RosterPeer {
    /// Whether the netmap carries a key and a handle for the pair.
    pub keyed: bool,
    /// The bytes of the peer's handle, when it is well formed.
    pub handle: Option<Vec<u8>>,
    /// The tag the peer presents under its key in the current epoch.
    pub their_tag: Tag,
    /// The endpoint that the netmap configures.
    pub endpoint: Option<SocketAddr>,
}

/// The node id in the first 32 bytes of a handle, when it has as many.
pub open spec fn node_id(handle: Seq<u8>) -> Option<NodeId> {
    if handle.len() >= 32 {
        Some(choose|id: NodeId| id.0@ == handle.take(32))
    } else {
        None
    }
}

/// The node id in the first 32 bytes of a handle, when it has as many.
fn first_32(handle: &Vec<u8>) -> (r: Option<NodeId>)
    ensures
        r == node_id(handle@),
        r is Some ==> (r->0).0@ == handle@.take(32),
{
    if handle.len() < 32 {
        return None;
    }
    let mut bytes = [0u8; 32];
    let mut i: usize = 0;
    while i < 32
        invariant
            i <= 32 <= handle@.len(),
            forall|j: int| 0 <= j < i ==> bytes@[j] == handle@[j],
        decreases 32 - i,
    {
        bytes[i] = handle[i];
        i = i + 1;
    }
    let id = Bytes(bytes);
    proof {
        assert(id.0@ =~= handle@.take(32));
        let chosen = choose|id: NodeId| id.0@ == handle@.take(32);
        assert(chosen.0@ == id.0@);
        assert(chosen.0 =~= id.0);
    }
    Some(id)
}

/// Every peer goes by the first thirty-two bytes of its handle in the roster.
pub open spec fn named_by(peers: Seq<Peer>, roster: Seq<RosterPeer>) -> bool {
    forall|i: int|
        0 <= i < peers.len() ==> {
            let r = (#[trigger] peers[i]).route_index as int;
            &&& r < roster.len()
            &&& roster[r].handle is Some
            &&& roster[r].handle->0@.len() >= 32
            &&& peers[i].their_id.0@ == roster[r].handle->0@.take(32)
        }
}

/// What discovery holds of a roster: the peers, the relay ids, and the
/// endpoints to probe first.
#[verifier::ext_equal]
pub struct Adopted {
    pub peers: Seq<Peer>,
    pub relay_peers: Seq<(NodeId, usize)>,
    pub seeds: Seq<(usize, SocketAddr)>,
}

/// A peer as it is added.
pub open spec fn fresh_peer(
    route_index: usize,
    their_id: NodeId,
    their_tag: Tag,
    installed: Option<SocketAddr>,
) -> Peer {
    Peer { route_index, their_id, their_tag, installed, reflexive: None, searching: false }
}

/// Whether a roster peer can be discovered beside `peers`: it has a key and a
/// well-formed handle, and its tag is not taken.
pub open spec fn discoverable(peers: Seq<Peer>, peer: RosterPeer) -> bool {
    &&& peer.keyed
    &&& peer.handle is Some
    &&& node_id(peer.handle->0@) is Some
    &&& tag_owner(peers, peer.their_tag) is None
}

/// What discovery holds after the first `n` peers of the roster. A configured
/// endpoint is adopted as installed, and probed first.
pub open spec fn adopted(roster: Seq<RosterPeer>, n: nat) -> Adopted
    decreases n,
{
    if n == 0 {
        Adopted { peers: seq![], relay_peers: seq![], seeds: seq![] }
    } else {
        let before = adopted(roster, (n - 1) as nat);
        let peer = roster[n - 1];
        let index = before.peers.len() as usize;
        if discoverable(before.peers, peer) {
            let id = node_id(peer.handle->0@)->0;
            Adopted {
                peers: before.peers.push(
                    fresh_peer((n - 1) as usize, id, peer.their_tag, peer.endpoint),
                ),
                relay_peers: before.relay_peers.push((id, index)),
                seeds: match peer.endpoint {
                    Some(e) => before.seeds.push((index, e)),
                    None => before.seeds,
                },
            }
        } else {
            before
        }
    }
}

/// The reflector with `tag`, searched from the first.
pub open spec fn reflector_with(reflectors: Seq<Reflector>, tag: Tag) -> Option<usize>
    decreases reflectors.len(),
{
    if reflectors.len() == 0 {
        None
    } else {
        match reflector_with(reflectors.drop_last(), tag) {
            Some(k) => Some(k),
            None => if reflectors.last().tag == tag {
                Some((reflectors.len() - 1) as usize)
            } else {
                None
            },
        }
    }
}

/// Whether a datagram starts with the magic.
pub open spec fn starts_with(datagram: Seq<u8>, magic: Seq<u8>) -> bool {
    datagram.len() >= magic.len() && datagram.take(magic.len() as int) == magic
}

/// Whether a datagram starts with the magic.
fn has_magic(datagram: &[u8], magic: &Bytes<4>) -> (r: bool)
    ensures
        r == starts_with(datagram@, magic.0@),
{
    if datagram.len() < 4 {
        return false;
    }
    let mut i: usize = 0;
    while i < 4
        invariant
            i <= 4 <= datagram@.len(),
            forall|j: int| 0 <= j < i ==> datagram@[j] == magic.0@[j],
        decreases 4 - i,
    {
        if datagram[i] != magic.0[i] {
            assert(datagram@.take(4)[i as int] != magic.0@[i as int]);
            return false;
        }
        i = i + 1;
    }
    assert(datagram@.take(4) =~= magic.0@);
    true
}

/// What an authenticated message from a peer asks of the probe schedule.
///
/// The source of a ping is a candidate: the datagram made the journey. A
/// candidate list is accepted only over the path already in use.
pub fn instruction(message: &Message, from: SocketAddr, chosen: Option<SocketAddr>) -> (r:
    Instruction)
    ensures
        match *message {
            Message::Ping { tx } => r == (Instruction::Answer {
                candidate: from,
                tx,
                observed: from,
            }),
            Message::Pong { tx, .. } => r == (Instruction::Confirm { tx }),
            Message::CallMeMaybe { candidates } => if chosen == Some(from) {
                r is Accept && r->Accept_candidates@ == candidates@
            } else {
                r == Instruction::Nothing
            },
            Message::Reflect { .. } | Message::Reflection { .. } => r == Instruction::Nothing,
        },
{
    match message {
        Message::Ping { tx } => Instruction::Answer { candidate: from, tx: *tx, observed: from },
        Message::Pong { tx, .. } => Instruction::Confirm { tx: *tx },
        Message::CallMeMaybe { candidates } => if chosen == Some(from) {
            Instruction::Accept { candidates: copy_sockets(candidates) }
        } else {
            Instruction::Nothing
        },
        Message::Reflect { .. } | Message::Reflection { .. } => Instruction::Nothing,
    }
}

/// What a transaction id confirms: the path that the probe went to, or else
/// the port that a search probe went to. The source of the answer does not
/// enter into it.
pub fn confirmation(confirmed: Option<SocketAddr>, searched: Option<SocketAddr>) -> (r:
    Confirmation)
    ensures
        r == match (confirmed, searched) {
            (Some(addr), _) => Confirmation::Path(addr),
            (None, Some(addr)) => Confirmation::Searched {
                addr,
                kind: if addr.ip is V6 {
                    PathKind::DirectV6
                } else {
                    PathKind::DirectV4
                },
            },
            (None, None) => Confirmation::Nothing,
        },
{
    match (confirmed, searched) {
        (Some(addr), _) => Confirmation::Path(addr),
        (None, Some(addr)) => Confirmation::Searched {
            addr,
            kind: if addr.ip.is_ipv6() {
                PathKind::DirectV6
            } else {
                PathKind::DirectV4
            },
        },
        (None, None) => Confirmation::Nothing,
    }
}

/// The candidates of an opened message that a relay delivered. Anything but an
/// advertisement is refused: a relay has no reason to carry a probe.
pub fn relayed_candidates(opened: &Option<Message>) -> (r: Option<Vec<SocketAddr>>)
    ensures
        match (*opened, r) {
            (Some(Message::CallMeMaybe { candidates }), Some(list)) => list@ == candidates@,
            (Some(Message::CallMeMaybe { .. }), None) => false,
            (_, r) => r is None,
        },
{
    match opened {
        Some(Message::CallMeMaybe { candidates }) => Some(copy_sockets(candidates)),
        _ => None,
    }
}

fn copy_sockets(list: &Vec<SocketAddr>) -> (r: Vec<SocketAddr>)
    ensures
        r@ == list@,
{
    let mut r: Vec<SocketAddr> = Vec::new();
    let mut i: usize = 0;
    while i < list.len()
        invariant
            i <= list@.len(),
            r@ == list@.take(i as int),
        decreases list@.len() - i,
    {
        r.push(list[i]);
        i = i + 1;
    }
    assert(list@.take(i as int) =~= list@);
    r
}

impl Disco {
    /// Tags are distinct, relay ids name peers, and no relay has two
    /// reflectors.
    pub open spec fn wf(self) -> bool {
        &&& forall|i: int, j: int|
            0 <= i < j < self.peers@.len() ==> self.peers@[i].their_tag
                != self.peers@[j].their_tag
        &&& forall|k: int|
            0 <= k < self.relay_peers@.len() ==> (#[trigger] self.relay_peers@[k]).1
                < self.peers@.len()
        &&& forall|i: int, j: int|
            0 <= i < j < self.reflectors@.len() ==> self.reflectors@[i].relay_id
                != self.reflectors@[j].relay_id
        &&& self.reflectors@.len() <= REFLECTORS_MAX
    }

    /// No peers, so nothing is discoverable.
    pub fn new(epoch: u32) -> (d: Disco)
        ensures
            d.wf(),
            d.epoch == epoch,
            d.peers@.len() == 0,
            d.relay_peers@.len() == 0,
            d.interfaces@.len() == 0,
            d.explicit_mapping is None,
            d.reflectors@.len() == 0,
    {
        Disco {
            peers: Vec::new(),
            relay_peers: Vec::new(),
            epoch,
            interfaces: Vec::new(),
            explicit_mapping: None,
            reflectors: Vec::new(),
        }
    }

    /// Records the external address that this node's gateway is holding open.
    /// Returns whether it changed, so that the candidates are published again.
    pub fn set_explicit_mapping(&mut self, mapping: Option<SocketAddr>) -> (changed: bool)
        ensures
            changed == (old(self).explicit_mapping != mapping),
            *final(self) == (Disco { explicit_mapping: mapping, ..*old(self) }),
    {
        let changed = self.explicit_mapping != mapping;
        self.explicit_mapping = mapping;
        changed
    }

    /// Replaces this node's interface addresses. Returns whether the list
    /// changed, so that the candidates are published again.
    pub fn set_interfaces(&mut self, addresses: &Vec<IpAddr>, port: u16) -> (changed: bool)
        ensures
            changed == (final(self).interfaces@ != old(self).interfaces@),
            interface_list(final(self).interfaces@, addresses@, port),
            final(self).peers == old(self).peers,
            final(self).relay_peers == old(self).relay_peers,
            final(self).epoch == old(self).epoch,
            final(self).explicit_mapping == old(self).explicit_mapping,
            final(self).reflectors == old(self).reflectors,
    {
        let next = interface_addresses(addresses, port);
        let changed = !same_sockets(&next, &self.interfaces);
        self.interfaces = next;
        changed
    }

    /// Records the reflector a relay offered. A relay that offers again
    /// replaces its own offer; past the limit a new relay is refused.
    pub fn set_reflector(&mut self, relay_id: NodeId, tag: Tag, endpoint: SocketAddr) -> (accepted:
        bool)
        requires
            old(self).wf(),
        ensures
            final(self).wf(),
            accepted == (reflector_of(old(self).reflectors@, relay_id)
                || old(self).reflectors@.len() < REFLECTORS_MAX),
            !accepted ==> *final(self) == *old(self),
            accepted ==> {
                let fresh = Reflecting {
                    relay_id,
                    tag,
                    endpoint,
                    outstanding: seq![],
                    observed: None,
                    last_ms: None,
                };
                let before = old(self).reflectors@;
                let after = final(self).reflectors@;
                &&& reflector_of(before, relay_id) ==> after.len() == before.len()
                &&& !reflector_of(before, relay_id) ==> after.len() == before.len() + 1
                    && after.last()@ == fresh
                &&& forall|k: int|
                    0 <= k < before.len() ==> (#[trigger] after[k])@ == if before[k].relay_id
                        == relay_id {
                        fresh
                    } else {
                        before[k]@
                    }
                &&& final(self).peers == old(self).peers
                &&& final(self).relay_peers == old(self).relay_peers
                &&& final(self).epoch == old(self).epoch
                &&& final(self).interfaces == old(self).interfaces
                &&& final(self).explicit_mapping == old(self).explicit_mapping
            },
    {
        let fresh = Reflector {
            relay_id,
            tag,
            endpoint,
            outstanding: Vec::new(),
            observed: None,
            last_ms: None,
        };
        assert(fresh@.outstanding =~= seq![]);
        let mut k: usize = 0;
        while k < self.reflectors.len() && self.reflectors[k].relay_id != relay_id
            invariant
                k <= self.reflectors@.len(),
                *self == *old(self),
                forall|j: int| 0 <= j < k ==> (#[trigger] self.reflectors@[j]).relay_id != relay_id,
            decreases self.reflectors@.len() - k,
        {
            k = k + 1;
        }
        if k < self.reflectors.len() {
            assert(self.reflectors@[k as int].relay_id == relay_id);
            self.reflectors[k] = fresh;
            return true;
        }
        if self.reflectors.len() >= REFLECTORS_MAX {
            return false;
        }
        self.reflectors.push(fresh);
        true
    }

    /// Forgets a relay's reflector and any address it had reported. Returns
    /// whether there was one, so that the candidates are published again.
    pub fn clear_reflector(&mut self, relay_id: &NodeId) -> (removed: bool)
        requires
            old(self).wf(),
        ensures
            final(self).wf(),
            removed == reflector_of(old(self).reflectors@, *relay_id),
            !reflector_of(final(self).reflectors@, *relay_id),
            !removed ==> *final(self) == *old(self),
            removed ==> exists|k: int|
                {
                    &&& 0 <= k < old(self).reflectors@.len()
                    &&& (#[trigger] old(self).reflectors@[k]).relay_id == *relay_id
                    &&& final(self).reflectors@ == old(self).reflectors@.remove(k)
                },
            final(self).peers == old(self).peers,
            final(self).relay_peers == old(self).relay_peers,
            final(self).epoch == old(self).epoch,
            final(self).interfaces == old(self).interfaces,
            final(self).explicit_mapping == old(self).explicit_mapping,
    {
        let mut k: usize = 0;
        while k < self.reflectors.len()
            invariant
                k <= self.reflectors@.len(),
                *self == *old(self),
                self.wf(),
                forall|j: int|
                    0 <= j < k ==> (#[trigger] self.reflectors@[j]).relay_id != *relay_id,
            decreases self.reflectors@.len() - k,
        {
            if self.reflectors[k].relay_id == *relay_id {
                assert(self.reflectors@[k as int].relay_id == *relay_id);
                let ghost before = self.reflectors@;
                let _ = self.reflectors.remove(k);
                proof {
                    let after = self.reflectors@;
                    assert(after =~= before.remove(k as int));
                    assert forall|j: int| 0 <= j < after.len() implies (
                    #[trigger] after[j]).relay_id != *relay_id by {
                        if j < k {
                            assert(after[j] == before[j]);
                        } else {
                            assert(after[j] == before[j + 1]);
                            assert(before[k as int].relay_id != before[j + 1].relay_id);
                        }
                    }
                    assert(before == old(self).reflectors@);
                }
                return true;
            }
            k = k + 1;
        }
        false
    }

    /// How many reflectors this node holds a key for.
    pub fn reflectors(&self) -> (n: usize)
        ensures
            n == self.reflectors@.len(),
    {
        self.reflectors.len()
    }

    /// Peers this node can discover paths to.
    pub fn peer_count(&self) -> (n: usize)
        ensures
            n == self.peers@.len(),
    {
        self.peers.len()
    }

    /// The candidate list this node advertises, in the order it is offered.
    pub fn candidates(&self) -> (list: Vec<SocketAddr>)
        ensures
            candidate_list(
                list@,
                self.explicit_mapping,
                self.interfaces@,
                reflector_reports(self.reflectors@),
                peer_reports(self.peers@),
            ),
    {
        let mut reflected: Vec<SocketAddr> = Vec::new();
        let mut i: usize = 0;
        while i < self.reflectors.len()
            invariant
                i <= self.reflectors@.len(),
                reflected@ == reflector_reports(self.reflectors@.take(i as int)),
            decreases self.reflectors@.len() - i,
        {
            proof {
                assert(self.reflectors@.take(i + 1).drop_last() =~= self.reflectors@.take(
                    i as int,
                ));
            }
            if let Some(a) = self.reflectors[i].observed {
                reflected.push(a);
            }
            i = i + 1;
        }
        let mut claimed: Vec<SocketAddr> = Vec::new();
        let mut j: usize = 0;
        while j < self.peers.len()
            invariant
                j <= self.peers@.len(),
                claimed@ == peer_reports(self.peers@.take(j as int)),
            decreases self.peers@.len() - j,
        {
            proof {
                assert(self.peers@.take(j + 1).drop_last() =~= self.peers@.take(j as int));
            }
            if let Some(a) = self.peers[j].reflexive {
                claimed.push(a);
            }
            j = j + 1;
        }
        proof {
            assert(self.reflectors@.take(i as int) =~= self.reflectors@);
            assert(self.peers@.take(j as int) =~= self.peers@);
        }
        candidates(self.explicit_mapping, &self.interfaces, &reflected, &claimed)
    }

    /// Withdraws every endpoint this node installed, against the roster they
    /// were installed on. A second call withdraws nothing.
    pub fn release_all(&mut self) -> (out: Vec<PathChange>)
        requires
            old(self).wf(),
        ensures
            final(self).wf(),
            out@ == releases(old(self).peers@),
            final(self).peers@ == old(self).peers@.map_values(
                |p: Peer| Peer { installed: None, ..p },
            ),
            final(self).relay_peers == old(self).relay_peers,
            final(self).epoch == old(self).epoch,
            final(self).interfaces == old(self).interfaces,
            final(self).explicit_mapping == old(self).explicit_mapping,
            final(self).reflectors == old(self).reflectors,
    {
        let ghost before = self.peers@;
        let mut out: Vec<PathChange> = Vec::new();
        let mut i: usize = 0;
        while i < self.peers.len()
            invariant
                i <= self.peers@.len() == before.len(),
                before == old(self).peers@,
                out@ == releases(before.take(i as int)),
                forall|k: int|
                    0 <= k < i ==> #[trigger] self.peers@[k] == (Peer {
                        installed: None,
                        ..before[k]
                    }),
                forall|k: int| i <= k < before.len() ==> #[trigger] self.peers@[k] == before[k],
                self.relay_peers == old(self).relay_peers,
                self.epoch == old(self).epoch,
                self.interfaces == old(self).interfaces,
                self.explicit_mapping == old(self).explicit_mapping,
                self.reflectors == old(self).reflectors,
            decreases self.peers@.len() - i,
        {
            let mut peer = self.peers[i];
            proof {
                assert(before.take(i + 1).drop_last() =~= before.take(i as int));
                assert(before.take(i + 1).last() == peer);
            }
            if let Some(installed) = peer.installed {
                out.push(PathChange::Release { peer: peer.route_index, installed });
            }
            peer.installed = None;
            self.peers[i] = peer;
            i = i + 1;
        }
        proof {
            assert(before.take(i as int) =~= before);
            assert(self.peers@ =~= before.map_values(|p: Peer| Peer { installed: None, ..p }));
        }
        out
    }

    /// What the datapath must change since this was last asked: transitions,
    /// so that a path that is gone can be withdrawn.
    pub fn path_changes(&mut self, facts: &Vec<Scheduled>) -> (out: Vec<PathChange>)
        requires
            old(self).wf(),
            facts@.len() == old(self).peers@.len(),
        ensures
            final(self).wf(),
            out@ == changes(old(self).peers@, facts@),
            final(self).peers@.len() == old(self).peers@.len(),
            forall|i: int|
                0 <= i < old(self).peers@.len() ==> #[trigger] final(self).peers@[i] == (Peer {
                    installed: installed_after(old(self).peers@[i], facts@[i]),
                    ..old(self).peers@[i]
                }),
            final(self).relay_peers == old(self).relay_peers,
            final(self).epoch == old(self).epoch,
            final(self).interfaces == old(self).interfaces,
            final(self).explicit_mapping == old(self).explicit_mapping,
            final(self).reflectors == old(self).reflectors,
    {
        let ghost before = self.peers@;
        let mut out: Vec<PathChange> = Vec::new();
        let mut i: usize = 0;
        while i < self.peers.len()
            invariant
                i <= self.peers@.len() == before.len() == facts@.len(),
                before == old(self).peers@,
                out@ == changes(before.take(i as int), facts@.take(i as int)),
                forall|k: int|
                    0 <= k < i ==> #[trigger] self.peers@[k] == (Peer {
                        installed: installed_after(before[k], facts@[k]),
                        ..before[k]
                    }),
                forall|k: int| i <= k < before.len() ==> #[trigger] self.peers@[k] == before[k],
                self.relay_peers == old(self).relay_peers,
                self.epoch == old(self).epoch,
                self.interfaces == old(self).interfaces,
                self.explicit_mapping == old(self).explicit_mapping,
                self.reflectors == old(self).reflectors,
            decreases self.peers@.len() - i,
        {
            let mut peer = self.peers[i];
            let fact = facts[i];
            proof {
                assert(before.take(i + 1).drop_last() =~= before.take(i as int));
                assert(before.take(i + 1).last() == peer);
                assert(facts@.take(i + 1).drop_last() =~= facts@.take(i as int));
                assert(facts@.take(i + 1).last() == fact);
            }
            if fact.chosen != peer.installed {
                match (peer.installed, fact.chosen) {
                    (_, Some(endpoint)) => {
                        peer.installed = Some(endpoint);
                        out.push(PathChange::Install { peer: peer.route_index, endpoint });
                    },
                    (Some(installed), None) => {
                        if fact.exhausted {
                            peer.installed = None;
                            out.push(PathChange::Release { peer: peer.route_index, installed });
                        }
                    },
                    (None, None) => {},
                }
            }
            self.peers[i] = peer;
            i = i + 1;
        }
        proof {
            assert(before.take(i as int) =~= before);
            assert(facts@.take(i as int) =~= facts@);
        }
        out
    }
}

/// Whether two lists hold the same addresses in the same order.
fn same_sockets(a: &Vec<SocketAddr>, b: &Vec<SocketAddr>) -> (r: bool)
    ensures
        r == (a@ == b@),
{
    if a.len() != b.len() {
        return false;
    }
    let mut i: usize = 0;
    while i < a.len()
        invariant
            i <= a@.len() == b@.len(),
            forall|j: int| 0 <= j < i ==> a@[j] == b@[j],
        decreases a@.len() - i,
    {
        if a[i] != b[i] {
            return false;
        }
        i = i + 1;
    }
    assert(a@ =~= b@);
    true
}

proof fn lemma_tag_owner(peers: Seq<Peer>, tag: Tag)
    requires
        peers.len() <= usize::MAX,
    ensures
        match tag_owner(peers, tag) {
            Some(i) => i < peers.len() && peers[i as int].their_tag == tag,
            None => forall|k: int| 0 <= k < peers.len() ==> (#[trigger] peers[k]).their_tag != tag,
        },
    decreases peers.len(),
{
    if peers.len() > 0 {
        let init = peers.drop_last();
        lemma_tag_owner(init, tag);
        if tag_owner(init, tag) is None && peers.last().their_tag != tag {
            assert forall|k: int| 0 <= k < peers.len() implies (#[trigger] peers[k]).their_tag
                != tag by {
                if k < init.len() {
                    assert(init[k].their_tag != tag);
                }
            }
        }
    }
}

impl Disco {
    /// The peer that presents `tag`.
    fn find_tag(&self, tag: Tag) -> (r: Option<usize>)
        ensures
            r == tag_owner(self.peers@, tag),
            r is Some ==> r->0 < self.peers@.len() && self.peers@[r->0 as int].their_tag == tag,
    {
        let mut found: Option<usize> = None;
        let mut i: usize = 0;
        while i < self.peers.len()
            invariant
                i <= self.peers@.len(),
                found == tag_owner(self.peers@.take(i as int), tag),
            decreases self.peers@.len() - i,
        {
            proof {
                assert(self.peers@.take(i + 1).drop_last() =~= self.peers@.take(i as int));
            }
            if found.is_none() && self.peers[i].their_tag == tag {
                found = Some(i);
            }
            i = i + 1;
        }
        proof {
            assert(self.peers@.take(i as int) =~= self.peers@);
            lemma_tag_owner(self.peers@, tag);
        }
        found
    }

    /// The peer that a relay's source id names.
    fn find_relay_peer(&self, id: NodeId) -> (r: Option<usize>)
        ensures
            r == relay_owner(self.relay_peers@, id),
    {
        let mut i: usize = self.relay_peers.len();
        assert(self.relay_peers@.take(i as int) =~= self.relay_peers@);
        while i > 0
            invariant
                i <= self.relay_peers@.len(),
                relay_owner(self.relay_peers@, id) == relay_owner(
                    self.relay_peers@.take(i as int),
                    id,
                ),
            decreases i,
        {
            proof {
                assert(self.relay_peers@.take(i as int).drop_last() =~= self.relay_peers@.take(
                    i - 1,
                ));
            }
            if self.relay_peers[i - 1].0 == id {
                return Some(self.relay_peers[i - 1].1);
            }
            i = i - 1;
        }
        None
    }

    /// The reflector that uses `tag`.
    fn find_reflector(&self, tag: Tag) -> (r: Option<usize>)
        ensures
            r == reflector_with(self.reflectors@, tag),
            r is Some ==> r->0 < self.reflectors@.len(),
    {
        let mut found: Option<usize> = None;
        let mut i: usize = 0;
        while i < self.reflectors.len()
            invariant
                i <= self.reflectors@.len(),
                found == reflector_with(self.reflectors@.take(i as int), tag),
                found is Some ==> found->0 < i,
            decreases self.reflectors@.len() - i,
        {
            proof {
                assert(self.reflectors@.take(i + 1).drop_last() =~= self.reflectors@.take(
                    i as int,
                ));
            }
            if found.is_none() && self.reflectors[i].tag == tag {
                found = Some(i);
            }
            i = i + 1;
        }
        assert(self.reflectors@.take(i as int) =~= self.reflectors@);
        found
    }

    /// Registers a peer's tag and node id. A node id that is too short, or a
    /// tag that is taken, is refused, and nothing changes.
    pub fn add_peer_at(
        &mut self,
        their_id: &Vec<u8>,
        their_tag: Tag,
        route_index: usize,
        installed: Option<SocketAddr>,
    ) -> (added: bool)
        requires
            old(self).wf(),
        ensures
            final(self).wf(),
            added == (node_id(their_id@) is Some && tag_owner(old(self).peers@, their_tag) is None),
            !added ==> *final(self) == *old(self),
            added ==> final(self).peers@.last().their_id.0@ == their_id@.take(32),
            added ==> {
                let id = node_id(their_id@)->0;
                let index = old(self).peers@.len() as usize;
                &&& final(self).peers@ == old(self).peers@.push(
                    fresh_peer(route_index, id, their_tag, installed),
                )
                &&& final(self).relay_peers@ == old(self).relay_peers@.push((id, index))
                &&& final(self).epoch == old(self).epoch
                &&& final(self).interfaces == old(self).interfaces
                &&& final(self).explicit_mapping == old(self).explicit_mapping
                &&& final(self).reflectors == old(self).reflectors
            },
    {
        let id = match first_32(their_id) {
            Some(id) => id,
            None => {
                return false;
            },
        };
        if self.find_tag(their_tag).is_some() {
            return false;
        }
        let index: usize = self.peers.len();
        proof {
            lemma_tag_owner(self.peers@, their_tag);
        }
        self.relay_peers.push((id, index));
        self.peers.push(
            Peer {
                route_index,
                their_id: id,
                their_tag,
                installed,
                reflexive: None,
                searching: false,
            },
        );
        true
    }

    /// Registers a peer at the end of the roster, with nothing installed.
    pub fn add_peer(&mut self, their_id: &Vec<u8>, their_tag: Tag) -> (added: bool)
        requires
            old(self).wf(),
        ensures
            final(self).wf(),
            added == (node_id(their_id@) is Some && tag_owner(old(self).peers@, their_tag) is None),
            !added ==> *final(self) == *old(self),
            added ==> final(self).peers@.last().their_id.0@ == their_id@.take(32),
            added ==> {
                let id = node_id(their_id@)->0;
                let index = old(self).peers@.len() as usize;
                &&& final(self).peers@ == old(self).peers@.push(
                    fresh_peer(index, id, their_tag, None),
                )
                &&& final(self).relay_peers@ == old(self).relay_peers@.push((id, index))
                &&& final(self).epoch == old(self).epoch
                &&& final(self).interfaces == old(self).interfaces
                &&& final(self).explicit_mapping == old(self).explicit_mapping
                &&& final(self).reflectors == old(self).reflectors
            },
    {
        let index: usize = self.peers.len();
        self.add_peer_at(their_id, their_tag, index, None)
    }

    /// Replaces discovery state from the current roster. Nothing learned about
    /// the old roster survives; interfaces, mapping, and reflectors do.
    ///
    /// Returns the endpoints to probe first, each with the peer it belongs to.
    pub fn reconcile(&mut self, epoch: u32, identified: bool, roster: &Vec<RosterPeer>) -> (seeds:
        Vec<(usize, SocketAddr)>)
        requires
            old(self).wf(),
        ensures
            final(self).wf(),
            ({
                let n = if identified {
                    roster@.len()
                } else {
                    0
                };
                &&& final(self).peers@ == adopted(roster@, n).peers
                &&& final(self).relay_peers@ == adopted(roster@, n).relay_peers
                &&& seeds@ == adopted(roster@, n).seeds
            }),
            named_by(final(self).peers@, roster@),
            final(self).epoch == epoch,
            final(self).interfaces == old(self).interfaces,
            final(self).explicit_mapping == old(self).explicit_mapping,
            final(self).reflectors == old(self).reflectors,
    {
        self.peers = Vec::new();
        self.relay_peers = Vec::new();
        self.epoch = epoch;
        let mut seeds: Vec<(usize, SocketAddr)> = Vec::new();
        if !identified {
            return seeds;
        }
        let mut i: usize = 0;
        while i < roster.len()
            invariant
                i <= roster@.len(),
                self.wf(),
                self.peers@ == adopted(roster@, i as nat).peers,
                self.relay_peers@ == adopted(roster@, i as nat).relay_peers,
                seeds@ == adopted(roster@, i as nat).seeds,
                named_by(self.peers@, roster@),
                self.epoch == epoch,
                self.interfaces == old(self).interfaces,
                self.explicit_mapping == old(self).explicit_mapping,
                self.reflectors == old(self).reflectors,
            decreases roster@.len() - i,
        {
            let peer = &roster[i];
            if peer.keyed {
                if let Some(handle) = &peer.handle {
                    let index: usize = self.peers.len();
                    if self.add_peer_at(handle, peer.their_tag, i, peer.endpoint) {
                        if let Some(e) = peer.endpoint {
                            seeds.push((index, e));
                        }
                    }
                }
            }
            i = i + 1;
        }
        seeds
    }

    /// Which key, if any, an arriving datagram is to be opened with.
    ///
    /// The magic is only a hint; the reflect key space is tested before the
    /// peers; and a datagram of another epoch, or with a tag that names nobody,
    /// is not ours. At most one key is ever tried.
    pub fn lookup(&self, datagram: &[u8], magic: &Bytes<4>, header: Option<Header>) -> (r: Lookup)
        ensures
            r == match header {
                Some(h) => if !starts_with(datagram@, magic.0@) {
                    Lookup::NotAven
                } else if h.reflect {
                    match reflector_with(self.reflectors@, h.tag) {
                        Some(k) => Lookup::Reflector(k),
                        None => Lookup::NotAven,
                    }
                } else if h.epoch != self.epoch {
                    Lookup::NotAven
                } else {
                    match tag_owner(self.peers@, h.tag) {
                        Some(i) => Lookup::Peer(i),
                        None => Lookup::NotAven,
                    }
                },
                None => Lookup::NotAven,
            },
            match r {
                Lookup::Peer(i) => i < self.peers@.len(),
                Lookup::Reflector(k) => k < self.reflectors@.len(),
                Lookup::NotAven => true,
            },
    {
        if !has_magic(datagram, magic) {
            return Lookup::NotAven;
        }
        let h = match header {
            Some(h) => h,
            None => {
                return Lookup::NotAven;
            },
        };
        if h.reflect {
            return match self.find_reflector(h.tag) {
                Some(k) => Lookup::Reflector(k),
                None => Lookup::NotAven,
            };
        }
        if h.epoch != self.epoch {
            return Lookup::NotAven;
        }
        match self.find_tag(h.tag) {
            Some(i) => Lookup::Peer(i),
            None => Lookup::NotAven,
        }
    }

    /// Handles what a peer's key opened. `fresh` says whether the transaction
    /// id of a ping was seen for the first time: each is answered at most once.
    ///
    /// What does not open is not discovery's. What a peer says it observed goes
    /// into that peer's own slot. Returns the verdict, and whether the
    /// candidates are to be published again.
    pub fn inbound(
        &mut self,
        peer: usize,
        opened: &Option<Message>,
        from: SocketAddr,
        fresh: bool,
    ) -> (r: (Verdict, bool))
        requires
            old(self).wf(),
            peer < old(self).peers@.len(),
        ensures
            final(self).wf(),
            match *opened {
                None => r.0 is NotAven && !r.1 && *final(self) == *old(self),
                Some(Message::Ping { tx }) => {
                    &&& r.0 is Handled
                    &&& r.0->Handled_0@ == if fresh {
                        seq![Reply { peer, tx, observed: from, to: from }]
                    } else {
                        seq![]
                    }
                    &&& !r.1
                    &&& *final(self) == *old(self)
                },
                Some(Message::Pong { observed, .. }) => {
                    &&& r.0 is Handled
                    &&& r.0->Handled_0@.len() == 0
                    &&& r.1 == (old(self).peers@[peer as int].reflexive != Some(observed))
                    &&& final(self).peers@ == old(self).peers@.update(
                        peer as int,
                        Peer { reflexive: Some(observed), ..old(self).peers@[peer as int] },
                    )
                    &&& final(self).relay_peers == old(self).relay_peers
                    &&& final(self).epoch == old(self).epoch
                    &&& final(self).interfaces == old(self).interfaces
                    &&& final(self).explicit_mapping == old(self).explicit_mapping
                    &&& final(self).reflectors == old(self).reflectors
                },
                Some(_) => r.0 is Handled && r.0->Handled_0@.len() == 0 && !r.1 && *final(self)
                    == *old(self),
            },
    {
        match opened {
            None => (Verdict::NotAven, false),
            Some(Message::Ping { tx }) => {
                let mut replies: Vec<Reply> = Vec::new();
                if fresh {
                    replies.push(Reply { peer, tx: *tx, observed: from, to: from });
                    assert(replies@ =~= seq![Reply { peer, tx: *tx, observed: from, to: from }]);
                } else {
                    assert(replies@ =~= seq![]);
                }
                (Verdict::Handled(replies), false)
            },
            Some(Message::Pong { observed, .. }) => {
                let mut p = self.peers[peer];
                let changed = p.reflexive != Some(*observed);
                p.reflexive = Some(*observed);
                self.peers[peer] = p;
                (Verdict::Handled(Vec::new()), changed)
            },
            Some(_) => (Verdict::Handled(Vec::new()), false),
        }
    }

    /// Handles what a reflector's key opened: an answer to a request that this
    /// node sent, once for each transaction id. Anything else, a request among
    /// them, is not discovery's.
    pub fn inbound_reflection(&mut self, reflector: usize, opened: &Option<Message>) -> (r: (
        Verdict,
        bool,
    ))
        requires
            old(self).wf(),
            reflector < old(self).reflectors@.len(),
        ensures
            final(self).wf(),
            ({
                let k = reflector as int;
                let before = old(self).reflectors@;
                let after = final(self).reflectors@;
                match *opened {
                    Some(Message::Reflection { tx, observed }) if awaits(
                        before[k].outstanding@,
                        tx,
                    ) => {
                        &&& r.0 is Handled
                        &&& r.0->Handled_0@.len() == 0
                        &&& r.1 == (before[k].observed != Some(observed))
                        &&& after.len() == before.len()
                        &&& after[k]@ == (Reflecting {
                            outstanding: without(before[k].outstanding@, tx),
                            observed: Some(observed),
                            ..before[k]@
                        })
                        &&& forall|j: int|
                            0 <= j < before.len() && j != k ==> #[trigger] after[j] == before[j]
                    },
                    _ => r.0 is NotAven && !r.1 && *final(self) == *old(self),
                }
            }),
            final(self).peers == old(self).peers,
            final(self).relay_peers == old(self).relay_peers,
            final(self).epoch == old(self).epoch,
            final(self).interfaces == old(self).interfaces,
            final(self).explicit_mapping == old(self).explicit_mapping,
    {
        match opened {
            Some(Message::Reflection { tx, observed }) => {
                let (kept, found) = take_request(&self.reflectors[reflector].outstanding, *tx);
                if !found {
                    return (Verdict::NotAven, false);
                }
                let r = &self.reflectors[reflector];
                let changed = r.observed != Some(*observed);
                let next = Reflector {
                    relay_id: r.relay_id,
                    tag: r.tag,
                    endpoint: r.endpoint,
                    outstanding: kept,
                    observed: Some(*observed),
                    last_ms: r.last_ms,
                };
                self.reflectors[reflector] = next;
                (Verdict::Handled(Vec::new()), changed)
            },
            _ => (Verdict::NotAven, false),
        }
    }

    /// The peer whose key opens a datagram that a relay delivered.
    ///
    /// The tag selects one peer and the source that the relay stamped selects
    /// another; both must be the same, or one admitted peer could replay
    /// another's datagram under its own relay identity.
    pub fn inbound_from_relay(
        &self,
        source_id: NodeId,
        datagram: &[u8],
        magic: &Bytes<4>,
        header: Option<Header>,
    ) -> (r: Option<usize>)
        ensures
            r == match header {
                Some(h) => if starts_with(datagram@, magic.0@) && h.epoch == self.epoch && tag_owner(
                    self.peers@,
                    h.tag,
                ) == relay_owner(self.relay_peers@, source_id) {
                    tag_owner(self.peers@, h.tag)
                } else {
                    None
                },
                None => None,
            },
            r is Some ==> r->0 < self.peers@.len(),
    {
        if !has_magic(datagram, magic) {
            return None;
        }
        match header {
            Some(h) => {
                if h.epoch != self.epoch {
                    return None;
                }
                match (self.find_tag(h.tag), self.find_relay_peer(source_id)) {
                    (Some(index), Some(expected)) => if index == expected {
                        Some(index)
                    } else {
                        None
                    },
                    _ => None,
                }
            },
            None => None,
        }
    }

    /// Asks each reflector where it sees this node, as long as some peer has no
    /// direct path. `ids` holds a fresh transaction id for each reflector.
    pub fn poll_reflectors(
        &mut self,
        now: u64,
        limits: Limits,
        ids: &Vec<TxId>,
        wanted: bool,
    ) -> (out: Vec<Datagram>)
        requires
            old(self).wf(),
            ids@.len() >= old(self).reflectors@.len(),
        ensures
            final(self).wf(),
            !wanted ==> out@.len() == 0 && *final(self) == *old(self),
            wanted ==> {
                &&& out@ == reflect_requests(old(self).reflectors@, now, limits, ids@)
                &&& final(self).reflectors@.len() == old(self).reflectors@.len()
                &&& forall|k: int|
                    0 <= k < old(self).reflectors@.len() ==> (#[trigger] final(self).reflectors@[k])@
                    == ticked(old(self).reflectors@[k]@, now, limits, ids@[k])
            },
            final(self).peers == old(self).peers,
            final(self).relay_peers == old(self).relay_peers,
            final(self).epoch == old(self).epoch,
            final(self).interfaces == old(self).interfaces,
            final(self).explicit_mapping == old(self).explicit_mapping,
    {
        let mut out: Vec<Datagram> = Vec::new();
        if !wanted {
            return out;
        }
        let ghost before = self.reflectors@;
        let mut k: usize = 0;
        while k < self.reflectors.len()
            invariant
                k <= self.reflectors@.len() == before.len() <= ids@.len(),
                before == old(self).reflectors@,
                out@ == reflect_requests(before.take(k as int), now, limits, ids@),
                forall|j: int|
                    0 <= j < k ==> (#[trigger] self.reflectors@[j])@ == ticked(
                        before[j]@,
                        now,
                        limits,
                        ids@[j],
                    ),
                forall|j: int| k <= j < before.len() ==> #[trigger] self.reflectors@[j]
                    == before[j],
                self.peers == old(self).peers,
                self.relay_peers == old(self).relay_peers,
                self.epoch == old(self).epoch,
                self.interfaces == old(self).interfaces,
                self.explicit_mapping == old(self).explicit_mapping,
            decreases self.reflectors@.len() - k,
        {
            let endpoint = self.reflectors[k].endpoint;
            let tx = ids[k];
            proof {
                assert(before.take(k + 1).drop_last() =~= before.take(k as int));
                assert(before.take(k + 1)[k as int] == before[k as int]);
            }
            let due = self.reflectors[k].tick(now, limits, tx);
            if due {
                out.push(
                    Datagram {
                        key: Key::Reflector(k),
                        request: Request::Reflect { tx },
                        to: endpoint,
                    },
                );
            }
            k = k + 1;
        }
        proof {
            assert(before.take(k as int) =~= before);
            assert forall|i: int, j: int| 0 <= i < j < self.reflectors@.len() implies
                self.reflectors@[i].relay_id != self.reflectors@[j].relay_id by {
                assert(self.reflectors@[i]@.relay_id == before[i].relay_id);
                assert(self.reflectors@[j]@.relay_id == before[j].relay_id);
            }
        }
        out
    }

    /// Whether the port search runs for a peer, given what its tick produced:
    /// if so, the search is to be aimed at the targets among the tick's paths
    /// and polled.
    pub fn will_search(&self, peer: usize, tick: &Tick) -> (r: bool)
        requires
            peer < self.peers@.len(),
        ensures
            r == searches(self.peers@[peer as int].searching, *tick),
    {
        let targets = search_targets(&tick.paths);
        !tick.direct && (self.peers[peer].searching || (tick.should_search && targets.len() > 0))
    }

    /// Drives every peer: what the reflectors are asked, what the schedules
    /// probe and advertise, and what the searches send.
    pub fn poll(&mut self, now: u64, limits: Limits, ids: &Vec<TxId>, ticks: &Vec<Tick>) -> (out:
        Outbound)
        requires
            old(self).wf(),
            ids@.len() >= old(self).reflectors@.len(),
            ticks@.len() == old(self).peers@.len(),
        ensures
            final(self).wf(),
            out.datagrams@ == (if some_unconnected(ticks@) {
                reflect_requests(old(self).reflectors@, now, limits, ids@)
            } else {
                seq![]
            }) + tick_datagrams(old(self).peers@, ticks@),
            out.relayed@.map_values(|a: Advertisement| advert(a)) == tick_adverts(
                old(self).peers@,
                ticks@,
            ),
            out.scratch@ == tick_scratch(old(self).peers@, ticks@),
            final(self).peers@.len() == old(self).peers@.len(),
            forall|i: int|
                0 <= i < old(self).peers@.len() ==> #[trigger] final(self).peers@[i] == (Peer {
                    searching: searches(old(self).peers@[i].searching, ticks@[i]),
                    ..old(self).peers@[i]
                }),
            final(self).reflectors@.len() == old(self).reflectors@.len(),
            forall|k: int|
                0 <= k < old(self).reflectors@.len() ==> (#[trigger] final(self).reflectors@[k])@
                    == if some_unconnected(ticks@) {
                    ticked(old(self).reflectors@[k]@, now, limits, ids@[k])
                } else {
                    old(self).reflectors@[k]@
                },
            final(self).relay_peers == old(self).relay_peers,
            final(self).epoch == old(self).epoch,
            final(self).interfaces == old(self).interfaces,
            final(self).explicit_mapping == old(self).explicit_mapping,
    {
        let mut wanted = false;
        let mut n: usize = 0;
        while n < ticks.len()
            invariant
                n <= ticks@.len(),
                wanted == some_unconnected(ticks@.take(n as int)),
            decreases ticks@.len() - n,
        {
            let ghost seen = ticks@.take(n as int);
            let ghost upto = ticks@.take(n + 1);
            proof {
                if some_unconnected(seen) {
                    let k = choose|k: int| 0 <= k < seen.len() && !(#[trigger] seen[k]).had_path;
                    assert(!upto[k].had_path);
                }
                if some_unconnected(upto) {
                    let k = choose|k: int| 0 <= k < upto.len() && !(#[trigger] upto[k]).had_path;
                    if k < n {
                        assert(!seen[k].had_path);
                    }
                }
                assert(upto[n as int] == ticks@[n as int]);
            }
            if !ticks[n].had_path {
                wanted = true;
            }
            n = n + 1;
        }
        assert(ticks@.take(n as int) =~= ticks@);
        let mut datagrams = self.poll_reflectors(now, limits, ids, wanted);
        let ghost asked = datagrams@;
        let mut relayed: Vec<Advertisement> = Vec::new();
        let mut scratch: Vec<Scratch> = Vec::new();
        let ghost before = self.peers@;
        let ghost reflecting = self.reflectors;
        proof {
            if !wanted {
                assert(asked =~= seq![]);
            }
            assert(asked + tick_datagrams(before.take(0), ticks@) =~= asked);
            assert(relayed@.map_values(|a: Advertisement| advert(a)) =~= tick_adverts(
                before.take(0),
                ticks@,
            ));
            assert(scratch@ =~= tick_scratch(before.take(0), ticks@));
        }
        let mut i: usize = 0;
        while i < self.peers.len()
            invariant
                i <= self.peers@.len() == before.len() == ticks@.len(),
                before == old(self).peers@,
                datagrams@ == asked + tick_datagrams(before.take(i as int), ticks@),
                relayed@.map_values(|a: Advertisement| advert(a)) == tick_adverts(
                    before.take(i as int),
                    ticks@,
                ),
                scratch@ == tick_scratch(before.take(i as int), ticks@),
                forall|k: int|
                    0 <= k < i ==> #[trigger] self.peers@[k] == (Peer {
                        searching: searches(before[k].searching, ticks@[k]),
                        ..before[k]
                    }),
                forall|k: int| i <= k < before.len() ==> #[trigger] self.peers@[k] == before[k],
                self.reflectors == reflecting,
                self.relay_peers == old(self).relay_peers,
                self.epoch == old(self).epoch,
                self.interfaces == old(self).interfaces,
                self.explicit_mapping == old(self).explicit_mapping,
            decreases self.peers@.len() - i,
        {
            let tick = &ticks[i];
            let mut peer = self.peers[i];
            let ghost sofar = before.take(i as int);
            let ghost upto = before.take(i + 1);
            proof {
                assert(upto.drop_last() =~= sofar);
                assert(upto.last() == peer);
            }
            push_actions(i, peer.their_id, &tick.actions, &mut datagrams, &mut relayed);
            let ghost probed = datagrams@;
            let searching = self.will_search(i, tick);
            if searching {
                if let Some(round) = &tick.round {
                    push_round(i, peer.route_index, round, &mut datagrams, &mut scratch);
                }
            }
            proof {
                let here = if searches(peer.searching, *tick) {
                    round_probes(i, tick.round)
                } else {
                    seq![]
                };
                assert(datagrams@ =~= probed + here);
                assert(datagrams@ =~= asked + (tick_datagrams(sofar, ticks@) + probes(
                    i,
                    tick.actions@,
                ) + here));
                let dropped = if searches(peer.searching, *tick) {
                    round_scratch(i, peer.route_index, tick.round)
                } else {
                    seq![]
                };
                assert(scratch@ =~= tick_scratch(sofar, ticks@) + dropped);
            }
            peer.searching = searching;
            self.peers[i] = peer;
            i = i + 1;
        }
        assert(before.take(i as int) =~= before);
        Outbound { datagrams, relayed, scratch }
    }

    /// The node's discovery state in words: counts, never keys.
    pub fn describe(&self) -> (s: String)
        ensures
            s@ == "Disco { peers: "@ + decimal_text(self.peers@.len()) + ", epoch: "@
                + decimal_text(self.epoch as nat) + ", .. }"@,
    {
        let mut s = String::from_str("Disco { peers: ");
        let peers = decimal(self.peers.len() as u64);
        s.append(peers.as_str());
        s.append(", epoch: ");
        let epoch = decimal(self.epoch as u64);
        s.append(epoch.as_str());
        s.append(", .. }");
        s
    }
}

/// Appends the probes and the advertisements among `actions`.
fn push_actions(
    i: usize,
    to: NodeId,
    actions: &Vec<Action>,
    datagrams: &mut Vec<Datagram>,
    relayed: &mut Vec<Advertisement>,
)
    ensures
        final(datagrams)@ == old(datagrams)@ + probes(i, actions@),
        final(relayed)@.map_values(|a: Advertisement| advert(a)) == old(relayed)@.map_values(
            |a: Advertisement| advert(a),
        ) + adverts(i, to, actions@),
{
    let ghost view = |a: Advertisement| advert(a);
    let ghost sent = datagrams@;
    let ghost told = relayed@.map_values(view);
    let mut j: usize = 0;
    proof {
        assert(sent + probes(i, actions@.take(0)) =~= sent);
        assert(told + adverts(i, to, actions@.take(0)) =~= told);
    }
    while j < actions.len()
        invariant
            j <= actions@.len(),
            view == (|a: Advertisement| advert(a)),
            datagrams@ == sent + probes(i, actions@.take(j as int)),
            relayed@.map_values(view) == told + adverts(i, to, actions@.take(j as int)),
        decreases actions@.len() - j,
    {
        let ghost upto = actions@.take(j + 1);
        proof {
            assert(upto.drop_last() =~= actions@.take(j as int));
            assert(upto.last() == actions@[j as int]);
        }
        match &actions[j] {
            Action::Probe { addr, tx } => {
                datagrams.push(
                    Datagram {
                        key: Key::Peer(i),
                        request: Request::Ping { tx: *tx },
                        to: *addr,
                    },
                );
                assert(datagrams@ =~= sent + probes(i, upto));
            },
            Action::Advertise { candidates } => {
                if candidates.len() > 0 {
                    let ghost listed = relayed@;
                    relayed.push(
                        Advertisement { peer: i, to, candidates: copy_sockets(candidates) },
                    );
                    proof {
                        assert(relayed@.map_values(view) =~= listed.map_values(view).push(
                            (i, to, candidates@),
                        ));
                        assert(relayed@.map_values(view) =~= told + adverts(i, to, upto));
                    }
                }
            },
        }
        j = j + 1;
    }
    assert(actions@.take(j as int) =~= actions@);
}

/// Appends what a search round sends.
fn push_round(
    i: usize,
    route_index: usize,
    round: &Round,
    datagrams: &mut Vec<Datagram>,
    scratch: &mut Vec<Scratch>,
)
    ensures
        final(datagrams)@ == old(datagrams)@ + round_probes(i, Some(*round)),
        final(scratch)@ == old(scratch)@ + round_scratch(i, route_index, Some(*round)),
{
    let ghost sent = datagrams@;
    let ghost opened = scratch@;
    let mut j: usize = 0;
    while j < round.scratch.len()
        invariant
            j <= round.scratch@.len(),
            scratch@ == opened + round_scratch(i, route_index, Some(*round)).take(j as int),
        decreases round.scratch@.len() - j,
    {
        scratch.push(
            Scratch {
                route_index,
                datagram: Datagram {
                    key: Key::Peer(i),
                    request: Request::Ping { tx: round.scratch[j] },
                    to: round.toward,
                },
            },
        );
        proof {
            let all = round_scratch(i, route_index, Some(*round));
            assert(all.take(j + 1) =~= all.take(j as int).push(all[j as int]));
            assert(scratch@ =~= opened + all.take(j + 1));
        }
        j = j + 1;
    }
    let mut k: usize = 0;
    while k < round.probes.len()
        invariant
            k <= round.probes@.len(),
            datagrams@ == sent + round_probes(i, Some(*round)).take(k as int),
        decreases round.probes@.len() - k,
    {
        let (addr, tx) = round.probes[k];
        datagrams.push(
            Datagram { key: Key::Peer(i), request: Request::Ping { tx }, to: addr },
        );
        proof {
            let all = round_probes(i, Some(*round));
            assert(all.take(k + 1) =~= all.take(k as int).push(all[k as int]));
            assert(datagrams@ =~= sent + all.take(k + 1));
        }
        k = k + 1;
    }
    proof {
        let all = round_scratch(i, route_index, Some(*round));
        assert(all.take(j as int) =~= all);
        let every = round_probes(i, Some(*round));
        assert(every.take(k as int) =~= every);
    }
}

/// Once the changes have been made, the same facts ask for no more: a path is
/// reported once and a withdrawal is not repeated.
pub proof fn changes_are_reported_once(peers: Seq<Peer>, after: Seq<Peer>, facts: Seq<Scheduled>)
    requires
        peers.len() == facts.len(),
        after.len() == peers.len(),
        forall|i: int|
            0 <= i < peers.len() ==> #[trigger] after[i] == (Peer {
                installed: installed_after(peers[i], facts[i]),
                ..peers[i]
            }),
    ensures
        changes(after, facts).len() == 0,
    decreases peers.len(),
{
    if peers.len() > 0 {
        assert forall|i: int| 0 <= i < peers.drop_last().len() implies
            #[trigger] after.drop_last()[i] == (Peer {
            installed: installed_after(peers.drop_last()[i], facts.drop_last()[i]),
            ..peers.drop_last()[i]
        }) by {
            assert(after[i] == after.drop_last()[i]);
        }
        changes_are_reported_once(peers.drop_last(), after.drop_last(), facts.drop_last());
        assert(after.last() == after[peers.len() - 1]);
    }
}

/// An endpoint is withdrawn only when it is the one discovery installed and
/// discovery has given up on every path.
pub proof fn a_withdrawal_follows_exhaustion(peer: Peer, fact: Scheduled)
    ensures
        path_change(peer, fact) matches Some(PathChange::Release { peer: index, installed })
            ==> peer.installed == Some(installed) && fact.chosen is None && fact.exhausted && index
            == peer.route_index,
{
}

/// Once everything has been withdrawn there is nothing left to withdraw.
pub proof fn everything_is_released_once(peers: Seq<Peer>)
    ensures
        releases(peers.map_values(|p: Peer| Peer { installed: None, ..p })).len() == 0,
    decreases peers.len(),
{
    let cleared = peers.map_values(|p: Peer| Peer { installed: None, ..p });
    if peers.len() > 0 {
        everything_is_released_once(peers.drop_last());
        assert(cleared.drop_last() =~= peers.drop_last().map_values(
            |p: Peer| Peer { installed: None, ..p },
        ));
    }
}

/// A transaction id is accepted once: when it has been taken, it is no longer
/// awaited.
pub proof fn a_reflection_is_accepted_once(outstanding: Seq<(TxId, u64)>, tx: TxId)
    ensures
        !awaits(without(outstanding, tx), tx),
{
    let kept = without(outstanding, tx);
    if awaits(kept, tx) {
        let i = choose|i: int| 0 <= i < kept.len() && (#[trigger] kept[i]).0 == tx;
        outstanding.lemma_filter_pred(not_for(tx), i);
    }
}

proof fn lemma_filter_is_no_longer(s: Seq<(TxId, u64)>, keep: spec_fn((TxId, u64)) -> bool)
    ensures
        s.filter(keep).len() <= s.len(),
    decreases s.len(),
{
    reveal(Seq::filter);
    if s.len() > 0 {
        lemma_filter_is_no_longer(s.drop_last(), keep);
    }
}

/// A reflector that never answers accumulates no more requests than the limit.
pub proof fn outstanding_requests_stay_bounded(r: Reflecting, now: u64, limits: Limits, tx: TxId)
    requires
        r.outstanding.len() <= limits.max_outstanding,
    ensures
        ticked(r, now, limits, tx).outstanding.len() <= limits.max_outstanding,
{
    let live = |e: (TxId, u64)| age(now, e.1) < limits.tx_timeout_ms;
    lemma_filter_is_no_longer(r.outstanding, live);
    let kept = unexpired(r.outstanding, now, limits.tx_timeout_ms);
    assert(kept == r.outstanding.filter(live));
    lemma_filter_is_no_longer(kept, not_for(tx));
}

/// A reflector is not asked again before the interval has passed.
pub proof fn requests_keep_the_interval(
    r: Reflecting,
    now: u64,
    later: u64,
    limits: Limits,
    tx: TxId,
)
    requires
        asks(r, now, limits),
        now <= later,
        asks(ticked(r, now, limits, tx), later, limits),
    ensures
        later - now >= limits.reflect_interval_ms,
{
}

proof fn lemma_first_with_tag(peers: Seq<Peer>, tag: Tag)
    requires
        peers.len() <= usize::MAX,
    ensures
        match tag_owner(peers, tag) {
            Some(i) => {
                &&& i < peers.len()
                &&& peers[i as int].their_tag == tag
                &&& forall|k: int| 0 <= k < i ==> (#[trigger] peers[k]).their_tag != tag
            },
            None => forall|k: int| 0 <= k < peers.len() ==> (#[trigger] peers[k]).their_tag != tag,
        },
    decreases peers.len(),
{
    if peers.len() > 0 {
        let init = peers.drop_last();
        lemma_first_with_tag(init, tag);
        assert forall|k: int| 0 <= k < init.len() implies #[trigger] peers[k] == init[k] by {}
    }
}

proof fn lemma_reflector_with(reflectors: Seq<Reflector>, tag: Tag)
    requires
        reflectors.len() <= usize::MAX,
    ensures
        match reflector_with(reflectors, tag) {
            Some(i) => {
                &&& i < reflectors.len()
                &&& reflectors[i as int].tag == tag
                &&& forall|k: int| 0 <= k < i ==> (#[trigger] reflectors[k]).tag != tag
            },
            None => forall|k: int|
                0 <= k < reflectors.len() ==> (#[trigger] reflectors[k]).tag != tag,
        },
    decreases reflectors.len(),
{
    if reflectors.len() > 0 {
        let init = reflectors.drop_last();
        lemma_reflector_with(init, tag);
        assert forall|k: int| 0 <= k < init.len() implies #[trigger] reflectors[k] == init[k] by {}
    }
}

proof fn lemma_relay_owner(entries: Seq<(NodeId, usize)>, id: NodeId)
    ensures
        match relay_owner(entries, id) {
            Some(i) => exists|k: int| 0 <= k < entries.len() && #[trigger] entries[k] == (id, i),
            None => forall|k: int| 0 <= k < entries.len() ==> (#[trigger] entries[k]).0 != id,
        },
    decreases entries.len(),
{
    if entries.len() > 0 {
        let init = entries.drop_last();
        lemma_relay_owner(init, id);
        if entries.last().0 == id {
            assert(entries[entries.len() - 1] == (id, entries.last().1));
        } else if relay_owner(init, id) is Some {
            let i = relay_owner(init, id)->0;
            let k = choose|k: int| 0 <= k < init.len() && #[trigger] init[k] == (id, i);
            assert(entries[k] == (id, i));
        } else {
            assert forall|k: int| 0 <= k < entries.len() implies (#[trigger] entries[k]).0
                != id by {
                if k < init.len() {
                    assert(init[k].0 != id);
                }
            }
        }
    }
}

/// A datagram belongs to discovery only if it starts with the magic and carries
/// the tag of a reflector, or this epoch and the tag of a peer; and then to that
/// reflector or that peer.
pub proof fn a_datagram_belongs_to_whom_its_tag_names(
    d: Disco,
    datagram: &[u8],
    magic: &Bytes<4>,
    header: Option<Header>,
    r: Lookup,
    i: usize,
)
    requires
        call_ensures(Disco::lookup, (&d, datagram, magic, header), r),
    ensures
        ({
            let ours = header is Some && datagram@.len() >= 4 && datagram@[0] == magic.0@[0]
                && datagram@[1] == magic.0@[1] && datagram@[2] == magic.0@[2] && datagram@[3]
                == magic.0@[3];
            let h = header->0;
            &&& !ours ==> r is NotAven
            &&& r == Lookup::Peer(i) ==> {
                &&& ours && !h.reflect && h.epoch == d.epoch
                &&& i < d.peers@.len() && d.peers@[i as int].their_tag == h.tag
                &&& forall|k: int| 0 <= k < i ==> (#[trigger] d.peers@[k]).their_tag != h.tag
            }
            &&& r == Lookup::Reflector(i) ==> {
                &&& ours && h.reflect
                &&& i < d.reflectors@.len() && d.reflectors@[i as int].tag == h.tag
                &&& forall|k: int| 0 <= k < i ==> (#[trigger] d.reflectors@[k]).tag != h.tag
            }
            &&& ours && !h.reflect && h.epoch == d.epoch && r is NotAven ==> forall|k: int|
                0 <= k < d.peers@.len() ==> (#[trigger] d.peers@[k]).their_tag != h.tag
            &&& ours && h.reflect && r is NotAven ==> forall|k: int|
                0 <= k < d.reflectors@.len() ==> (#[trigger] d.reflectors@[k]).tag != h.tag
        }),
{
    assert(d.peers@.len() == d.peers.len());
    assert(d.reflectors@.len() == d.reflectors.len());
    if let Some(h) = header {
        lemma_first_with_tag(d.peers@, h.tag);
        lemma_reflector_with(d.reflectors@, h.tag);
        lemma_magic(datagram@, magic.0@);
    }
}

proof fn lemma_magic(datagram: Seq<u8>, magic: Seq<u8>)
    requires
        magic.len() == 4,
    ensures
        starts_with(datagram, magic) <==> datagram.len() >= 4 && datagram[0] == magic[0]
            && datagram[1] == magic[1] && datagram[2] == magic[2] && datagram[3] == magic[3],
{
    if starts_with(datagram, magic) {
        let front = datagram.take(4);
        assert(front[0] == datagram[0] && front[1] == datagram[1] && front[2] == datagram[2]
            && front[3] == datagram[3]);
    }
    if datagram.len() >= 4 && datagram[0] == magic[0] && datagram[1] == magic[1] && datagram[2]
        == magic[2] && datagram[3] == magic[3] {
        assert(datagram.take(4) =~= magic);
    }
}

/// What a relay delivers is discovery only if it starts with the magic, is of
/// this epoch, and carries the tag of a peer that the relay knows by the name it
/// gives as the sender.
pub proof fn a_relayed_datagram_is_from_whom_it_names(
    d: Disco,
    source: NodeId,
    datagram: &[u8],
    magic: &Bytes<4>,
    header: Option<Header>,
    r: Option<usize>,
    direct: Lookup,
)
    requires
        call_ensures(Disco::inbound_from_relay, (&d, source, datagram, magic, header), r),
        call_ensures(
            Disco::lookup,
            (
                &d,
                datagram,
                magic,
                match header {
                    Some(h) => Some(Header { reflect: false, ..h }),
                    None => None,
                },
            ),
            direct,
        ),
    ensures
        r matches Some(i) ==> {
            &&& direct == Lookup::Peer(i)
            &&& exists|k: int| 0 <= k < d.relay_peers@.len()
                && #[trigger] d.relay_peers@[k] == (source, i)
        },
        r is None && direct is Peer ==> d.relay_peers@.len() > 0 ==> d.relay_peers@.last() != (
            source,
            direct->Peer_0,
        ),
{
    lemma_relay_owner(d.relay_peers@, source);
}

/// A ping is answered once, to whoever sent it, with the address it came from. A
/// pong tells how this node looks from outside, which is kept for the peer that
/// said so; it is news only if it differs from what the peer said before. What
/// cannot be opened is not discovery. Nothing else changes.
pub proof fn a_peers_message_is_taken_for_what_it_is(
    d: &mut Disco,
    peer: usize,
    opened: &Option<Message>,
    from: SocketAddr,
    fresh: bool,
    r: (Verdict, bool),
    k: int,
)
    requires
        peer < old(d).peers@.len(),
        0 <= k < old(d).peers@.len(),
        call_ensures(Disco::inbound, (d, peer, opened, from, fresh), r),
    ensures
        r.0 is NotAven <==> *opened is None,
        r.0 matches Verdict::Handled(replies) ==> {
            &&& replies@.len() == if fresh && *opened is Some && (*opened)->0 is Ping {
                1int
            } else {
                0
            }
            &&& replies@.len() == 1 ==> replies@[0].peer == peer && replies@[0].to == from
                && replies@[0].observed == from && Some(Message::Ping { tx: replies@[0].tx })
                == *opened
        },
        *opened matches Some(Message::Pong { tx, observed }) ==> {
            &&& final(d).peers@[peer as int].reflexive == Some(observed)
            &&& r.1 == (old(d).peers@[peer as int].reflexive != Some(observed))
        },
        !(*opened is Some && (*opened)->0 is Pong) ==> !r.1 && final(d).peers@ == old(d).peers@,
        final(d).peers@.len() == old(d).peers@.len(),
        final(d).peers@[k] == (Peer {
            reflexive: final(d).peers@[k].reflexive,
            ..old(d).peers@[k]
        }),
        k != peer ==> final(d).peers@[k] == old(d).peers@[k],
        final(d).relay_peers == old(d).relay_peers
            && final(d).epoch == old(d).epoch
            && final(d).interfaces == old(d).interfaces
            && final(d).explicit_mapping == old(d).explicit_mapping
            && final(d).reflectors == old(d).reflectors,
{
}

/// The datapath does with a peer's message what its kind asks for: a ping is
/// answered where it came from, a pong confirms the probe that it answers, and a
/// call is accepted only over the path that is in use.
pub proof fn a_message_instructs_the_datapath(
    message: &Message,
    from: SocketAddr,
    chosen: Option<SocketAddr>,
    r: Instruction,
    relayed: Option<Vec<SocketAddr>>,
)
    requires
        call_ensures(instruction, (message, from, chosen), r),
        call_ensures(relayed_candidates, (&Some(*message),), relayed),
    ensures
        r is Answer <==> *message is Ping,
        r matches Instruction::Answer { candidate, tx, observed } ==> candidate == from && observed
            == from && *message == (Message::Ping { tx }),
        r is Confirm <==> *message is Pong,
        r matches Instruction::Confirm { tx } ==> *message matches Message::Pong { tx: t, observed }
            && t == tx,
        r is Accept <==> *message is CallMeMaybe && chosen == Some(from),
        r matches Instruction::Accept { candidates } ==> *message matches Message::CallMeMaybe {
            candidates: c,
        } && candidates@ == c@,
        relayed is Some <==> *message is CallMeMaybe,
        relayed matches Some(list) ==> *message matches Message::CallMeMaybe { candidates: c }
            && list@ == c@,
{
}

/// A pong confirms the candidate that was probed; failing that, one that the
/// search found, as a direct path of its address family.
pub proof fn a_pong_confirms_one_path(
    confirmed: Option<SocketAddr>,
    searched: Option<SocketAddr>,
    r: Confirmation,
    nothing: Option<Vec<SocketAddr>>,
)
    requires
        call_ensures(confirmation, (confirmed, searched), r),
        call_ensures(relayed_candidates, (&None::<Message>,), nothing),
    ensures
        confirmed matches Some(a) ==> r == Confirmation::Path(a),
        confirmed is None ==> (searched matches Some(a) ==> {
            &&& a.ip is V4 ==> r == (Confirmation::Searched { addr: a, kind: PathKind::DirectV4 })
            &&& a.ip is V6 ==> r == (Confirmation::Searched { addr: a, kind: PathKind::DirectV6 })
        }),
        confirmed is None && searched is None ==> r is Nothing,
        nothing is None,
{
}

/// The answer to a request is taken once: it must name a request that is still
/// awaited, which it then is no longer. What the reflector saw is kept for it,
/// and is news only if it differs from before.
pub proof fn a_reflection_answers_one_request(
    d: &mut Disco,
    k: usize,
    tx: TxId,
    observed: SocketAddr,
    r: (Verdict, bool),
    again: &mut Disco,
    q: (Verdict, bool),
    j: int,
)
    requires
        k < old(d).reflectors@.len(),
        0 <= j < old(d).reflectors@.len(),
        call_ensures(
            Disco::inbound_reflection,
            (d, k, &Some(Message::Reflection { tx, observed })),
            r,
        ),
        *old(again) == *final(d),
        call_ensures(
            Disco::inbound_reflection,
            (again, k, &Some(Message::Reflection { tx, observed })),
            q,
        ),
    ensures
        r.0 is Handled <==> exists|n: int|
            0 <= n < old(d).reflectors@[k as int].outstanding@.len()
                && (#[trigger] old(d).reflectors@[k as int].outstanding@[n]).0 == tx,
        r.0 is Handled ==> {
            &&& final(d).reflectors@[k as int].observed == Some(observed)
            &&& r.1 == (old(d).reflectors@[k as int].observed != Some(observed))
        },
        q.0 is NotAven,
        r.0 is NotAven ==> !r.1 && *final(d) == *old(d),
        final(d).reflectors@.len() == old(d).reflectors@.len(),
        j != k ==> final(d).reflectors@[j] == old(d).reflectors@[j],
        final(d).reflectors@[j].relay_id == old(d).reflectors@[j].relay_id,
        final(d).reflectors@[j].tag == old(d).reflectors@[j].tag,
        final(d).reflectors@[j].endpoint == old(d).reflectors@[j].endpoint,
        final(d).reflectors@[j].last_ms == old(d).reflectors@[j].last_ms,
        final(d).peers == old(d).peers,
{
    let before = old(d).reflectors@[k as int].outstanding@;
    a_reflection_is_accepted_once(before, tx);
    let after = final(d).reflectors@[k as int];
    assert(after@.outstanding == after.outstanding@);
}

/// A reflector accepts nothing but the answer to a request.
pub proof fn a_reflector_only_reflects(
    d: &mut Disco,
    k: usize,
    opened: &Option<Message>,
    r: (Verdict, bool),
)
    requires
        k < old(d).reflectors@.len(),
        !(*opened is Some && (*opened)->0 is Reflection),
        call_ensures(Disco::inbound_reflection, (d, k, opened), r),
    ensures
        r.0 is NotAven && !r.1 && *final(d) == *old(d),
{
}

/// Whether a peer's path changes, and how, when the schedule says what it does.
pub open spec fn is_change_of(p: Peer, fact: Scheduled, c: PathChange) -> bool {
    match c {
        PathChange::Install { peer, endpoint } => peer == p.route_index && fact.chosen == Some(
            endpoint,
        ) && p.installed != Some(endpoint),
        PathChange::Release { peer, installed } => peer == p.route_index && p.installed == Some(
            installed,
        ) && fact.chosen is None && fact.exhausted,
    }
}

proof fn lemma_changes(peers: Seq<Peer>, facts: Seq<Scheduled>)
    requires
        peers.len() == facts.len(),
    ensures
        changes(peers, facts).len() <= peers.len(),
        forall|c: PathChange| #[trigger]
            changes(peers, facts).contains(c) <==> exists|i: int|
                0 <= i < peers.len() && #[trigger] is_change_of(peers[i], facts[i], c),
    decreases peers.len(),
{
    if peers.len() > 0 {
        let (p, f) = (peers.drop_last(), facts.drop_last());
        let before = changes(p, f);
        let all = changes(peers, facts);
        lemma_changes(p, f);
        assert forall|c: PathChange| #[trigger] all.contains(c) <==> exists|i: int|
            0 <= i < peers.len() && #[trigger] is_change_of(peers[i], facts[i], c) by {
            if all.contains(c) {
                let k = choose|k: int| 0 <= k < all.len() && all[k] == c;
                if k < before.len() {
                    assert(before[k] == c);
                    assert(before.contains(c));
                    let i = choose|i: int| 0 <= i < p.len() && #[trigger] is_change_of(p[i], f[i], c);
                    assert(is_change_of(peers[i], facts[i], c));
                } else {
                    assert(is_change_of(peers[peers.len() - 1], facts[peers.len() - 1], c));
                }
            }
            if exists|i: int| 0 <= i < peers.len() && #[trigger] is_change_of(peers[i], facts[i], c) {
                let i = choose|i: int|
                    0 <= i < peers.len() && #[trigger] is_change_of(peers[i], facts[i], c);
                if i < p.len() {
                    assert(is_change_of(p[i], f[i], c));
                    assert(before.contains(c));
                    let k = choose|k: int| 0 <= k < before.len() && before[k] == c;
                    assert(all[k] == c);
                } else {
                    assert(path_change(peers.last(), facts.last()) == Some(c));
                    assert(all.last() == c);
                    assert(all[all.len() - 1] == c);
                }
            }
        }
    }
}

/// The path of each peer becomes the one that the schedule chose, and is given
/// up when the schedule has nothing left to try. Exactly these changes are
/// reported, and reported once: the same schedule again reports none.
pub proof fn the_path_is_what_the_schedule_chose(
    d: &mut Disco,
    facts: &Vec<Scheduled>,
    out: Vec<PathChange>,
    again: &mut Disco,
    none: Vec<PathChange>,
    i: int,
    c: PathChange,
)
    requires
        facts@.len() == old(d).peers@.len(),
        call_ensures(Disco::path_changes, (d, facts), out),
        *old(again) == *final(d),
        call_ensures(Disco::path_changes, (again, facts), none),
        0 <= i < old(d).peers@.len(),
    ensures
        final(d).peers@.len() == old(d).peers@.len(),
        ({
            let before = old(d).peers@[i].installed;
            let after = final(d).peers@[i].installed;
            &&& facts@[i].chosen is Some ==> after == facts@[i].chosen
            &&& facts@[i].chosen is None && facts@[i].exhausted ==> after is None
            &&& facts@[i].chosen is None && !facts@[i].exhausted ==> after == before
        }),
        final(d).peers@[i] == (Peer {
            installed: final(d).peers@[i].installed,
            ..old(d).peers@[i]
        }),
        out@.contains(c) <==> exists|k: int|
            0 <= k < facts@.len() && #[trigger] is_change_of(old(d).peers@[k], facts@[k], c),
        out@.len() <= facts@.len(),
        none@.len() == 0,
{
    lemma_changes(old(d).peers@, facts@);
    lemma_changes(final(d).peers@, facts@);
    if none@.len() > 0 {
        let c = none@[0];
        assert(changes(final(d).peers@, facts@).contains(c));
        let k = choose|k: int|
            0 <= k < facts@.len() && #[trigger] is_change_of(final(d).peers@[k], facts@[k], c);
        assert(final(d).peers@[k] == (Peer {
            installed: installed_after(old(d).peers@[k], facts@[k]),
            ..old(d).peers@[k]
        }));
    }
}

proof fn lemma_releases(peers: Seq<Peer>)
    ensures
        forall|c: PathChange| #[trigger]
            releases(peers).contains(c) <==> exists|i: int|
                0 <= i < peers.len() && (#[trigger] peers[i]).installed is Some && c
                    == (PathChange::Release {
                    peer: peers[i].route_index,
                    installed: peers[i].installed->0,
                }),
        releases(peers).len() == peers.filter(|p: Peer| p.installed is Some).len(),
    decreases peers.len(),
{
    reveal(Seq::filter);
    if peers.len() > 0 {
        let init = peers.drop_last();
        lemma_releases(init);
        let before = releases(init);
        let all = releases(peers);
        assert forall|c: PathChange| #[trigger] all.contains(c) <==> exists|i: int|
            0 <= i < peers.len() && (#[trigger] peers[i]).installed is Some && c
                == (PathChange::Release {
                peer: peers[i].route_index,
                installed: peers[i].installed->0,
            }) by {
            if all.contains(c) {
                let k = choose|k: int| 0 <= k < all.len() && all[k] == c;
                if k < before.len() {
                    assert(before[k] == c);
                    assert(before.contains(c));
                    let i = choose|i: int|
                        0 <= i < init.len() && (#[trigger] init[i]).installed is Some && c
                            == (PathChange::Release {
                            peer: init[i].route_index,
                            installed: init[i].installed->0,
                        });
                    assert(peers[i] == init[i]);
                } else {
                    assert(peers[peers.len() - 1].installed is Some);
                }
            }
            if exists|i: int|
                0 <= i < peers.len() && (#[trigger] peers[i]).installed is Some && c
                    == (PathChange::Release {
                    peer: peers[i].route_index,
                    installed: peers[i].installed->0,
                }) {
                let i = choose|i: int|
                    0 <= i < peers.len() && (#[trigger] peers[i]).installed is Some && c
                        == (PathChange::Release {
                        peer: peers[i].route_index,
                        installed: peers[i].installed->0,
                    });
                if i < init.len() {
                    assert(init[i] == peers[i]);
                    assert(before.contains(c));
                    let k = choose|k: int| 0 <= k < before.len() && before[k] == c;
                    assert(all[k] == c);
                } else {
                    assert(all[all.len() - 1] == c);
                }
            }
        }
    }
}

/// Releasing everything reports every path that was in use, once each, and
/// leaves none in use; nothing else of a peer changes.
pub proof fn every_path_in_use_is_released(
    d: &mut Disco,
    out: Vec<PathChange>,
    i: int,
    c: PathChange,
)
    requires
        call_ensures(Disco::release_all, (d,), out),
        0 <= i < old(d).peers@.len(),
    ensures
        final(d).peers@.len() == old(d).peers@.len(),
        final(d).peers@[i] == (Peer { installed: None, ..old(d).peers@[i] }),
        out@.contains(c) <==> exists|k: int|
            0 <= k < old(d).peers@.len() && (#[trigger] old(d).peers@[k]).installed is Some && c
                == (PathChange::Release {
                peer: old(d).peers@[k].route_index,
                installed: old(d).peers@[k].installed->0,
            }),
        out@.len() == old(d).peers@.filter(|p: Peer| p.installed is Some).len(),
{
    lemma_releases(old(d).peers@);
}

/// Whether an entry of the roster has what discovery needs: keys, and a handle
/// of at least thirty-two bytes.
pub open spec fn can_be_discovered(p: RosterPeer) -> bool {
    p.keyed && p.handle is Some && p.handle->0@.len() >= 32
}

proof fn lemma_adopted(roster: Seq<RosterPeer>, n: nat)
    requires
        n <= roster.len() <= usize::MAX,
    ensures
        ({
            let a = adopted(roster, n);
            &&& a.peers.len() <= n
            &&& a.relay_peers.len() == a.peers.len()
            &&& forall|i: int|
                0 <= i < a.peers.len() ==> {
                    let p = #[trigger] a.peers[i];
                    let r = p.route_index as int;
                    &&& r < n
                    &&& can_be_discovered(roster[r])
                    &&& p.their_tag == roster[r].their_tag
                    &&& p.installed == roster[r].endpoint
                    &&& p.reflexive is None && !p.searching
                    &&& a.relay_peers[i] == (p.their_id, i as usize)
                }
            &&& forall|i: int, j: int|
                0 <= i < j < a.peers.len() ==> (#[trigger] a.peers[i]).route_index < (
                #[trigger] a.peers[j]).route_index
            &&& forall|r: int|
                0 <= r < n && can_be_discovered(#[trigger] roster[r]) ==> exists|i: int|
                    0 <= i < a.peers.len() && (#[trigger] a.peers[i]).their_tag
                        == roster[r].their_tag && a.peers[i].route_index <= r
            &&& forall|k: int|
                0 <= k < a.seeds.len() ==> (#[trigger] a.seeds[k]).0 < a.peers.len()
                    && a.peers[a.seeds[k].0 as int].installed == Some(a.seeds[k].1)
            &&& forall|k: int, m: int|
                0 <= k < m < a.seeds.len() ==> (#[trigger] a.seeds[k]).0 < (#[trigger] a.seeds[m]).0
            &&& forall|i: int|
                0 <= i < a.peers.len() && (#[trigger] a.peers[i]).installed is Some
                    ==> a.seeds.contains((i as usize, a.peers[i].installed->0))
        }),
    decreases n,
{
    if n > 0 {
        lemma_adopted(roster, (n - 1) as nat);
        let b = adopted(roster, (n - 1) as nat);
        let a = adopted(roster, n);
        let p = roster[n - 1];
        lemma_first_with_tag(b.peers, p.their_tag);
        assert forall|r: int| 0 <= r < n && can_be_discovered(#[trigger] roster[r]) implies exists|
            i: int,
        |
            0 <= i < a.peers.len() && (#[trigger] a.peers[i]).their_tag == roster[r].their_tag
                && a.peers[i].route_index <= r by {
            if r < n - 1 {
                let i = choose|i: int|
                    0 <= i < b.peers.len() && (#[trigger] b.peers[i]).their_tag
                        == roster[r].their_tag && b.peers[i].route_index <= r;
                assert(a.peers[i] == b.peers[i]);
            } else if discoverable(b.peers, p) {
                assert(a.peers[b.peers.len() as int].their_tag == p.their_tag);
            } else {
                let i = tag_owner(b.peers, p.their_tag)->0 as int;
                assert(b.peers[i].their_tag == p.their_tag);
            }
        }
        assert forall|i: int|
            0 <= i < a.peers.len() && (#[trigger] a.peers[i]).installed is Some implies
            a.seeds.contains((i as usize, a.peers[i].installed->0)) by {
            if i < b.peers.len() {
                assert(a.peers[i] == b.peers[i]);
                let e = (i as usize, b.peers[i].installed->0);
                assert(b.seeds.contains(e));
                let k = choose|k: int| 0 <= k < b.seeds.len() && b.seeds[k] == e;
                assert(a.seeds[k] == e);
            } else {
                assert(a.seeds[b.seeds.len() as int] == (i as usize, a.peers[i].installed->0));
            }
        }
    }
}

/// A new roster starts discovery afresh: every entry with keys and a handle is a
/// peer, in the roster's order, under the first thirty-two bytes of its handle,
/// and with the endpoint it came with; of entries with one tag only the first
/// is. The relay's names are the peers', and the endpoints are probed first.
/// Without an identity of our own there are no peers.
pub proof fn a_roster_starts_discovery_afresh(
    d: &mut Disco,
    epoch: u32,
    identified: bool,
    roster: &Vec<RosterPeer>,
    seeds: Vec<(usize, SocketAddr)>,
    i: int,
    j: int,
    r: int,
    k: int,
    m: int,
)
    requires
        call_ensures(Disco::reconcile, (d, epoch, identified, roster), seeds),
    ensures
        final(d).epoch == epoch,
        final(d).interfaces == old(d).interfaces && final(d).explicit_mapping
            == old(d).explicit_mapping && final(d).reflectors == old(d).reflectors,
        !identified ==> final(d).peers@.len() == 0 && seeds@.len() == 0,
        final(d).relay_peers@.len() == final(d).peers@.len(),
        0 <= i < final(d).peers@.len() ==> {
            let p = final(d).peers@[i];
            let entry = roster@[p.route_index as int];
            &&& p.route_index < roster@.len()
            &&& can_be_discovered(entry)
            &&& p.their_id.0@ == entry.handle->0@.take(32)
            &&& p.their_tag == entry.their_tag
            &&& p.installed == entry.endpoint
            &&& p.reflexive is None && !p.searching
            &&& final(d).relay_peers@[i] == (p.their_id, i as usize)
            &&& p.installed is Some ==> seeds@.contains((i as usize, p.installed->0))
        },
        0 <= i < j < final(d).peers@.len()
            ==> final(d).peers@[i].route_index < final(d).peers@[j].route_index,
        identified && 0 <= r < roster@.len() && can_be_discovered(roster@[r]) ==> exists|n: int|
            0 <= n < final(d).peers@.len() && (#[trigger] final(d).peers@[n]).their_tag
                == roster@[r].their_tag && final(d).peers@[n].route_index <= r,
        0 <= k < seeds@.len() ==> seeds@[k].0 < final(d).peers@.len()
            && final(d).peers@[seeds@[k].0 as int].installed == Some(seeds@[k].1),
        0 <= k < m < seeds@.len() ==> seeds@[k].0 < seeds@[m].0,
{
    assert(roster@.len() == roster.len());
    if identified {
        lemma_adopted(roster@, roster@.len());
    }
}

/// A peer is added unless its name is too short or its tag is taken, after the
/// peers that are there. It goes by the first thirty-two bytes of its name, and
/// nothing is known of it yet but the endpoint it came with.
pub proof fn a_peer_is_added_once(
    d: &mut Disco,
    name: &Vec<u8>,
    tag: Tag,
    route: usize,
    installed: Option<SocketAddr>,
    added: bool,
    again: &mut Disco,
    twice: bool,
    other: &mut Disco,
    plain: bool,
)
    requires
        call_ensures(Disco::add_peer_at, (d, name, tag, route, installed), added),
        *old(again) == *final(d),
        call_ensures(Disco::add_peer, (again, name, tag), twice),
        *old(other) == *old(d),
        call_ensures(Disco::add_peer, (other, name, tag), plain),
    ensures
        added <==> name@.len() >= 32 && forall|k: int|
            0 <= k < old(d).peers@.len() ==> (#[trigger] old(d).peers@[k]).their_tag != tag,
        added ==> {
            let n = old(d).peers@.len();
            let p = final(d).peers@.last();
            &&& final(d).peers@.len() == n + 1
            &&& final(d).peers@.drop_last() == old(d).peers@
            &&& p.their_id.0@ == name@.take(32)
            &&& p.their_tag == tag && p.route_index == route && p.installed == installed
            &&& p.reflexive is None && !p.searching
            &&& final(d).relay_peers@ == old(d).relay_peers@.push((p.their_id, n as usize))
        },
        !added ==> *final(d) == *old(d),
        !twice && *final(again) == *final(d),
        plain == added,
        plain ==> {
            let p = final(other).peers@.last();
            &&& final(other).peers@.drop_last() == old(d).peers@
            &&& p.their_id.0@ == name@.take(32)
            &&& p.their_tag == tag && p.route_index == old(d).peers@.len() && p.installed is None
            &&& p.reflexive is None && !p.searching
        },
{
    assert(old(d).peers@.len() == old(d).peers.len());
    assert(final(d).peers@.len() == final(d).peers.len());
    lemma_first_with_tag(old(d).peers@, tag);
    lemma_first_with_tag(final(d).peers@, tag);
    if added {
        assert(final(d).peers@[old(d).peers@.len() as int].their_tag == tag);
        assert(final(d).peers@.drop_last() =~= old(d).peers@);
        assert(final(other).peers@.drop_last() =~= old(d).peers@);
    }
}

/// Whether a peer's round of discovery sends this request to `to`: a ping that
/// the schedule asks for, or one of the search for the peer.
pub open spec fn is_probed(searching: bool, tick: Tick, request: Request, to: SocketAddr) -> bool {
    request matches Request::Ping { tx } && {
        ||| exists|k: int|
            0 <= k < tick.actions@.len() && #[trigger] tick.actions@[k] == (Action::Probe {
                addr: to,
                tx,
            })
        ||| searching && tick.round is Some && tick.round->0.probes@.contains((to, tx))
    }
}

proof fn lemma_probes(i: usize, actions: Seq<Action>, g: Datagram)
    ensures
        probes(i, actions).contains(g) <==> exists|k: int|
            0 <= k < actions.len() && (#[trigger] actions[k] matches Action::Probe { addr, tx } && g
                == (Datagram { key: Key::Peer(i), request: Request::Ping { tx }, to: addr })),
        probes(i, actions).len() == actions.filter(|a: Action| a is Probe).len(),
    decreases actions.len(),
{
    reveal(Seq::filter);
    if actions.len() > 0 {
        let init = actions.drop_last();
        lemma_probes(i, init, g);
        let before = probes(i, init);
        let all = probes(i, actions);
        if all.contains(g) {
            let k = choose|k: int| 0 <= k < all.len() && all[k] == g;
            if k < before.len() {
                assert(before[k] == g);
                let n = choose|n: int|
                    0 <= n < init.len() && (#[trigger] init[n] matches Action::Probe { addr, tx }
                        && g == (Datagram {
                        key: Key::Peer(i),
                        request: Request::Ping { tx },
                        to: addr,
                    }));
                assert(actions[n] == init[n]);
            } else {
                assert(actions[actions.len() - 1] is Probe);
            }
        }
        if exists|k: int|
            0 <= k < actions.len() && (#[trigger] actions[k] matches Action::Probe { addr, tx } && g
                == (Datagram { key: Key::Peer(i), request: Request::Ping { tx }, to: addr })) {
            let k = choose|k: int|
                0 <= k < actions.len() && (#[trigger] actions[k] matches Action::Probe { addr, tx }
                    && g == (Datagram {
                    key: Key::Peer(i),
                    request: Request::Ping { tx },
                    to: addr,
                }));
            if k < init.len() {
                assert(init[k] == actions[k]);
                assert(before.contains(g));
                let n = choose|n: int| 0 <= n < before.len() && before[n] == g;
                assert(all[n] == g);
            } else {
                assert(all[all.len() - 1] == g);
            }
        }
    }
}

proof fn lemma_round_probes(i: usize, round: Option<Round>, g: Datagram)
    ensures
        round_probes(i, round).contains(g) <==> round is Some && (g.request matches Request::Ping {
            tx,
        } && g.key == Key::Peer(i) && round->0.probes@.contains((g.to, tx))),
        round_probes(i, round).len() == match round {
            Some(r) => r.probes@.len(),
            None => 0,
        },
{
    if let Some(r) = round {
        let all = round_probes(i, round);
        if all.contains(g) {
            let k = choose|k: int| 0 <= k < all.len() && all[k] == g;
            assert(r.probes@[k] == (g.to, r.probes@[k].1));
            assert(all[k] == ping(i, r.probes@[k].1, r.probes@[k].0));
        }
        if let Request::Ping { tx } = g.request {
            if g.key == Key::Peer(i) && r.probes@.contains((g.to, tx)) {
                let k = choose|k: int| 0 <= k < r.probes@.len() && r.probes@[k] == (g.to, tx);
                assert(all[k] == ping(i, tx, g.to));
                assert(all[k] == g);
            }
        }
    }
}

/// How many pings the first `n` peers' rounds send.
pub open spec fn pings(searching: Seq<bool>, ticks: Seq<Tick>, n: nat) -> nat
    decreases n,
{
    if n == 0 {
        0
    } else {
        let t = ticks[n - 1];
        pings(searching, ticks, (n - 1) as nat) + t.actions@.filter(
            |a: Action| a is Probe,
        ).len() + if searching[n - 1] && t.round is Some {
            t.round->0.probes@.len()
        } else {
            0
        }
    }
}

proof fn lemma_tick_datagrams(
    peers: Seq<Peer>,
    ticks: Seq<Tick>,
    searching: Seq<bool>,
    g: Datagram,
)
    requires
        peers.len() <= usize::MAX,
        peers.len() <= ticks.len(),
        peers.len() <= searching.len(),
        forall|i: int|
            0 <= i < peers.len() ==> #[trigger] searching[i] == searches(
                peers[i].searching,
                ticks[i],
            ),
    ensures
        tick_datagrams(peers, ticks).contains(g) <==> exists|i: int|
            0 <= i < peers.len() && g.key == Key::Peer(i as usize)
                && #[trigger] is_probed(searching[i], ticks[i], g.request, g.to),
        tick_datagrams(peers, ticks).len() == pings(searching, ticks, peers.len()),
    decreases peers.len(),
{
    let all = tick_datagrams(peers, ticks);
    if peers.len() > 0 {
        let init = peers.drop_last();
        lemma_tick_datagrams(init, ticks, searching, g);
        let last = (peers.len() - 1) as usize;
        let t = ticks[last as int];
        lemma_probes(last, t.actions@, g);
        lemma_round_probes(last, t.round, g);
        let a = tick_datagrams(init, ticks);
        let b = probes(last, t.actions@);
        let s = searching[last as int];
        let c = if s {
            round_probes(last, t.round)
        } else {
            seq![]
        };
        assert(all =~= a + b + c);
        lemma_in_three(a, b, c, g);
        let here = g.key == Key::Peer(last) && is_probed(s, t, g.request, g.to);
        if b.contains(g) {
            let k = choose|k: int|
                0 <= k < t.actions@.len() && (#[trigger] t.actions@[k] matches Action::Probe {
                    addr,
                    tx,
                } && g == (Datagram { key: Key::Peer(last), request: Request::Ping { tx }, to: addr }));
            assert(here);
        }
        if c.contains(g) {
            assert(here);
        }
        if here {
            let tx = g.request->Ping_tx;
            if !(s && t.round is Some && t.round->0.probes@.contains((g.to, tx))) {
                let k = choose|k: int|
                    0 <= k < t.actions@.len() && #[trigger] t.actions@[k] == (Action::Probe {
                        addr: g.to,
                        tx,
                    });
                assert(t.actions@[k] is Probe);
                assert(b.contains(g));
            }
        }
        if a.contains(g) {
            let i = choose|i: int|
                0 <= i < init.len() && g.key == Key::Peer(i as usize)
                    && #[trigger] is_probed(searching[i], ticks[i], g.request, g.to);
            assert(is_probed(searching[i], ticks[i], g.request, g.to));
        }
        if exists|i: int|
            0 <= i < peers.len() && g.key == Key::Peer(i as usize)
                && #[trigger] is_probed(searching[i], ticks[i], g.request, g.to) {
            let i = choose|i: int|
                0 <= i < peers.len() && g.key == Key::Peer(i as usize)
                    && #[trigger] is_probed(searching[i], ticks[i], g.request, g.to);
            if i < init.len() {
                assert(is_probed(searching[i], ticks[i], g.request, g.to));
                assert(a.contains(g));
            } else {
                assert(here);
            }
        }
    }
}

proof fn lemma_in_three(a: Seq<Datagram>, b: Seq<Datagram>, c: Seq<Datagram>, g: Datagram)
    ensures
        (a + b + c).contains(g) <==> a.contains(g) || b.contains(g) || c.contains(g),
{
    let all = a + b + c;
    if all.contains(g) {
        let k = choose|k: int| 0 <= k < all.len() && all[k] == g;
        if k < a.len() {
            assert(a[k] == g);
        } else if k < a.len() + b.len() {
            assert(b[k - a.len()] == g);
        } else {
            assert(c[k - a.len() - b.len()] == g);
        }
    }
    if a.contains(g) {
        let k = choose|k: int| 0 <= k < a.len() && a[k] == g;
        assert(all[k] == g);
    }
    if b.contains(g) {
        let k = choose|k: int| 0 <= k < b.len() && b[k] == g;
        assert(all[a.len() + k] == g);
    }
    if c.contains(g) {
        let k = choose|k: int| 0 <= k < c.len() && c[k] == g;
        assert(all[a.len() + b.len() + k] == g);
    }
}

/// Whether a reflector may be asked: it is long enough since it was, and not too
/// many requests to it still wait for their answers.
pub open spec fn may_be_asked(r: Reflector, now: u64, limits: Limits) -> bool {
    &&& r.last_ms matches Some(t) ==> t + limits.reflect_interval_ms <= now
        || limits.reflect_interval_ms == 0
    &&& r.outstanding@.filter(
        |e: (TxId, u64)| now < e.1 + limits.tx_timeout_ms && limits.tx_timeout_ms > 0,
    ).len() < limits.max_outstanding
}

proof fn lemma_asks(r: Reflector, now: u64, limits: Limits)
    ensures
        asks(r@, now, limits) == may_be_asked(r, now, limits),
{
    let a = |e: (TxId, u64)| age(now, e.1) < limits.tx_timeout_ms;
    let b = |e: (TxId, u64)| now < e.1 + limits.tx_timeout_ms && limits.tx_timeout_ms > 0;
    assert(a =~= b);
}

proof fn lemma_requests(
    reflectors: Seq<Reflector>,
    now: u64,
    limits: Limits,
    ids: Seq<TxId>,
    g: Datagram,
)
    requires
        reflectors.len() <= usize::MAX,
    ensures
        reflect_requests(reflectors, now, limits, ids).contains(g) <==> exists|k: int|
            0 <= k < reflectors.len() && g.key == Key::Reflector(k as usize) && g.request
                == (Request::Reflect { tx: ids[k] }) && g.to == (#[trigger] reflectors[k]).endpoint
                && may_be_asked(reflectors[k], now, limits),
        reflect_requests(reflectors, now, limits, ids).len() == reflectors.filter(
            |r: Reflector| may_be_asked(r, now, limits),
        ).len(),
    decreases reflectors.len(),
{
    reveal(Seq::filter);
    if reflectors.len() > 0 {
        let init = reflectors.drop_last();
        lemma_requests(init, now, limits, ids, g);
        lemma_asks(reflectors.last(), now, limits);
        let before = reflect_requests(init, now, limits, ids);
        let all = reflect_requests(reflectors, now, limits, ids);
        if all.contains(g) {
            let k = choose|k: int| 0 <= k < all.len() && all[k] == g;
            if k < before.len() {
                assert(before[k] == g);
                let n = choose|k: int|
                    0 <= k < init.len() && g.key == Key::Reflector(k as usize) && g.request
                        == (Request::Reflect { tx: ids[k] }) && g.to == (
                    #[trigger] init[k]).endpoint && may_be_asked(init[k], now, limits);
                assert(reflectors[n] == init[n]);
            } else {
                assert(reflectors[reflectors.len() - 1].endpoint == g.to);
            }
        }
        if exists|k: int|
            0 <= k < reflectors.len() && g.key == Key::Reflector(k as usize) && g.request
                == (Request::Reflect { tx: ids[k] }) && g.to == (#[trigger] reflectors[k]).endpoint
                && may_be_asked(reflectors[k], now, limits) {
            let k = choose|k: int|
                0 <= k < reflectors.len() && g.key == Key::Reflector(k as usize) && g.request
                    == (Request::Reflect { tx: ids[k] }) && g.to == (
                #[trigger] reflectors[k]).endpoint && may_be_asked(reflectors[k], now, limits);
            if k < init.len() {
                assert(init[k] == reflectors[k]);
                assert(before.contains(g));
                let n = choose|n: int| 0 <= n < before.len() && before[n] == g;
                assert(all[n] == g);
            } else {
                assert(all[all.len() - 1] == g);
            }
        }
    }
}

/// A reflector is asked where it is, under an identifier of its own, if it is
/// time and not too many requests are outstanding. The request is then awaited
/// until it times out; one that has timed out is awaited no longer.
pub proof fn a_reflector_is_asked_in_its_time(
    d: &mut Disco,
    now: u64,
    limits: Limits,
    ids: &Vec<TxId>,
    wanted: bool,
    out: Vec<Datagram>,
    g: Datagram,
    k: int,
    e: (TxId, u64),
)
    requires
        ids@.len() >= old(d).reflectors@.len(),
        call_ensures(Disco::poll_reflectors, (d, now, limits, ids, wanted), out),
        0 <= k < old(d).reflectors@.len(),
    ensures
        !wanted ==> out@.len() == 0 && *final(d) == *old(d),
        wanted ==> {
            let before = old(d).reflectors@[k];
            let after = final(d).reflectors@[k];
            let asked = may_be_asked(before, now, limits);
            &&& out@.contains(g) <==> exists|n: int|
                0 <= n < old(d).reflectors@.len() && g.key == Key::Reflector(n as usize)
                    && g.request == (Request::Reflect { tx: ids@[n] })
                        && g.to == (#[trigger] old(d).reflectors@[n]).endpoint && may_be_asked(old(d).reflectors@[n], now, limits)
            &&& out@.len() == old(d).reflectors@.filter(
                |r: Reflector| may_be_asked(r, now, limits),
            ).len()
            &&& asked ==> after.last_ms == Some(now) && after.outstanding@.contains((ids@[k], now))
            &&& !asked ==> after.last_ms == before.last_ms
            &&& after.outstanding@.contains(e) && !(asked && e.0 == ids@[k])
                <==> before.outstanding@.contains(e) && (now < e.1 + limits.tx_timeout_ms
                && limits.tx_timeout_ms > 0) && !(asked && e.0 == ids@[k])
            &&& after.relay_id == before.relay_id && after.tag == before.tag && after.endpoint
                == before.endpoint && after.observed == before.observed
        },
        final(d).peers == old(d).peers,
{
    let before = old(d).reflectors@;
    assert(before.len() == old(d).reflectors.len());
    lemma_requests(before, now, limits, ids@, g);
    lemma_asks(before[k], now, limits);
    if wanted {
        let b = before[k];
        let a = final(d).reflectors@[k];
        assert(a@ == ticked(b@, now, limits, ids@[k]));
        assert(a@.outstanding == a.outstanding@);
        let live = |x: (TxId, u64)| age(now, x.1) < limits.tx_timeout_ms;
        let kept = b.outstanding@.filter(live);
        assert(unexpired(b.outstanding@, now, limits.tx_timeout_ms) == kept);
        lemma_in_filter(b.outstanding@, live, e);
        lemma_in_filter(kept, not_for(ids@[k]), e);
        if asks(b@, now, limits) {
            let w = without(kept, ids@[k]);
            assert(a.outstanding@ == w.push((ids@[k], now)));
            assert(a.outstanding@[w.len() as int] == (ids@[k], now));
            if w.contains(e) {
                let n = choose|n: int| 0 <= n < w.len() && w[n] == e;
                assert(a.outstanding@[n] == e);
            }
            if a.outstanding@.contains(e) && e.0 != ids@[k] {
                let n = choose|n: int| 0 <= n < a.outstanding@.len() && a.outstanding@[n] == e;
                assert(w[n] == e);
            }
        }
    }
}

proof fn lemma_in_filter(s: Seq<(TxId, u64)>, keep: spec_fn((TxId, u64)) -> bool, e: (TxId, u64))
    ensures
        s.filter(keep).contains(e) <==> s.contains(e) && keep(e),
    decreases s.len(),
{
    reveal(Seq::filter);
    let all = s.filter(keep);
    if s.len() > 0 {
        let init = s.drop_last();
        lemma_in_filter(init, keep, e);
        let before = init.filter(keep);
        if all.contains(e) {
            let k = choose|k: int| 0 <= k < all.len() && all[k] == e;
            if k < before.len() {
                assert(before[k] == e);
                let n = choose|n: int| 0 <= n < init.len() && init[n] == e;
                assert(s[n] == e);
            } else {
                assert(s[s.len() - 1] == e);
            }
        }
        if s.contains(e) && keep(e) {
            let n = choose|n: int| 0 <= n < s.len() && s[n] == e;
            if n < init.len() {
                assert(init[n] == e);
                let k = choose|k: int| 0 <= k < before.len() && before[k] == e;
                assert(all[k] == e);
            } else {
                assert(all[all.len() - 1] == e);
            }
        }
    }
}

/// A peer is searched for while it has no direct path: once the schedule asks
/// for it and there is a direct address to try, and from then on.
pub proof fn a_peer_without_a_path_is_searched_for(
    d: Disco,
    i: usize,
    tick: &Tick,
    r: bool,
    targets: Vec<SocketAddr>,
)
    requires
        i < d.peers@.len(),
        call_ensures(Disco::will_search, (&d, i, tick), r),
        call_ensures(search_targets, (&tick.paths,), targets),
    ensures
        r == (!tick.direct && (d.peers@[i as int].searching || (tick.should_search
            && targets@.len() > 0))),
{
}

proof fn lemma_direct(paths: Seq<(SocketAddr, PathKind)>, a: SocketAddr)
    ensures
        direct_addresses(paths).len() == paths.filter(
            |p: (SocketAddr, PathKind)| p.1 !is Relay,
        ).len(),
        direct_addresses(paths).contains(a) <==> exists|k: int|
            0 <= k < paths.len() && (#[trigger] paths[k]).0 == a && paths[k].1 !is Relay,
    decreases paths.len(),
{
    reveal(Seq::filter);
    if paths.len() > 0 {
        let init = paths.drop_last();
        lemma_direct(init, a);
        let before = direct_addresses(init);
        let all = direct_addresses(paths);
        if all.contains(a) {
            let k = choose|k: int| 0 <= k < all.len() && all[k] == a;
            if k < before.len() {
                assert(before[k] == a);
                let n = choose|n: int|
                    0 <= n < init.len() && (#[trigger] init[n]).0 == a && init[n].1 !is Relay;
                assert(paths[n] == init[n]);
            } else {
                assert(paths[paths.len() - 1].0 == a);
            }
        }
        if exists|k: int| 0 <= k < paths.len() && (#[trigger] paths[k]).0 == a && paths[k].1 !is Relay {
            let k = choose|k: int|
                0 <= k < paths.len() && (#[trigger] paths[k]).0 == a && paths[k].1 !is Relay;
            if k < init.len() {
                assert(init[k] == paths[k]);
                let n = choose|n: int| 0 <= n < before.len() && before[n] == a;
                assert(all[n] == a);
            } else {
                assert(all[all.len() - 1] == a);
            }
        }
    }
}

/// The search tries every path that is not by relay, and no other.
pub proof fn the_search_tries_every_direct_path(
    paths: &Vec<(SocketAddr, PathKind)>,
    targets: Vec<SocketAddr>,
    a: SocketAddr,
)
    requires
        call_ensures(search_targets, (paths,), targets),
    ensures
        targets@.contains(a) <==> exists|k: int|
            0 <= k < paths@.len() && (#[trigger] paths@[k]).0 == a && paths@[k].1 !is Relay,
        targets@.len() == paths@.filter(|p: (SocketAddr, PathKind)| p.1 !is Relay).len(),
{
    lemma_direct(paths@, a);
}

proof fn lemma_adverts(i: usize, to: NodeId, actions: Seq<Action>, a: (usize, NodeId, Seq<SocketAddr>))
    ensures
        adverts(i, to, actions).contains(a) <==> a.0 == i && a.1 == to && a.2.len() > 0 && exists|
            k: int,
        |
            0 <= k < actions.len() && (#[trigger] actions[k] matches Action::Advertise { candidates }
                && candidates@ == a.2),
    decreases actions.len(),
{
    if actions.len() > 0 {
        let init = actions.drop_last();
        lemma_adverts(i, to, init, a);
        let before = adverts(i, to, init);
        let all = adverts(i, to, actions);
        if all.contains(a) {
            let k = choose|k: int| 0 <= k < all.len() && all[k] == a;
            if k < before.len() {
                assert(before[k] == a);
                let n = choose|n: int|
                    0 <= n < init.len() && (#[trigger] init[n] matches Action::Advertise {
                        candidates,
                    } && candidates@ == a.2);
                assert(actions[n] == init[n]);
            } else {
                assert(actions[actions.len() - 1] is Advertise);
            }
        }
        if a.0 == i && a.1 == to && a.2.len() > 0 && exists|k: int|
            0 <= k < actions.len() && (#[trigger] actions[k] matches Action::Advertise { candidates }
                && candidates@ == a.2) {
            let k = choose|k: int|
                0 <= k < actions.len() && (#[trigger] actions[k] matches Action::Advertise {
                    candidates,
                } && candidates@ == a.2);
            if k < init.len() {
                assert(init[k] == actions[k]);
                assert(before.contains(a));
                let n = choose|n: int| 0 <= n < before.len() && before[n] == a;
                assert(all[n] == a);
            } else {
                assert(all[all.len() - 1] == a);
            }
        }
    }
}

/// Whether a peer's round asks for these candidates to be advertised.
pub open spec fn is_advertised(tick: Tick, candidates: Seq<SocketAddr>) -> bool {
    candidates.len() > 0 && exists|k: int|
        0 <= k < tick.actions@.len() && (#[trigger] tick.actions@[k] matches Action::Advertise {
            candidates: c,
        } && c@ == candidates)
}

proof fn lemma_tick_adverts(peers: Seq<Peer>, ticks: Seq<Tick>, a: (usize, NodeId, Seq<SocketAddr>))
    requires
        peers.len() <= usize::MAX,
        peers.len() <= ticks.len(),
    ensures
        tick_adverts(peers, ticks).contains(a) <==> a.0 < peers.len() && a.1
            == peers[a.0 as int].their_id && is_advertised(ticks[a.0 as int], a.2),
    decreases peers.len(),
{
    if peers.len() > 0 {
        let init = peers.drop_last();
        lemma_tick_adverts(init, ticks, a);
        let i = (peers.len() - 1) as usize;
        lemma_adverts(i, peers.last().their_id, ticks[i as int].actions@, a);
        let before = tick_adverts(init, ticks);
        let now = adverts(i, peers.last().their_id, ticks[i as int].actions@);
        let all = tick_adverts(peers, ticks);
        if all.contains(a) {
            let k = choose|k: int| 0 <= k < all.len() && all[k] == a;
            if k < before.len() {
                assert(before[k] == a);
            } else {
                assert(now[k - before.len()] == a);
            }
        }
        if before.contains(a) {
            let k = choose|k: int| 0 <= k < before.len() && before[k] == a;
            assert(all[k] == a);
        }
        if now.contains(a) {
            let k = choose|k: int| 0 <= k < now.len() && now[k] == a;
            assert(all[before.len() + k] == a);
        }
    }
}

proof fn lemma_tick_scratch(peers: Seq<Peer>, ticks: Seq<Tick>, s: Scratch)
    requires
        peers.len() <= usize::MAX,
        peers.len() <= ticks.len(),
    ensures
        tick_scratch(peers, ticks).contains(s) <==> exists|i: int|
            0 <= i < peers.len() && #[trigger] is_scratched(peers[i], ticks[i], i, s),
    decreases peers.len(),
{
    if peers.len() > 0 {
        let init = peers.drop_last();
        lemma_tick_scratch(init, ticks, s);
        let i = (peers.len() - 1) as usize;
        let t = ticks[i as int];
        let p = peers.last();
        let before = tick_scratch(init, ticks);
        let now = if searches(p.searching, t) {
            round_scratch(i, p.route_index, t.round)
        } else {
            seq![]
        };
        let all = tick_scratch(peers, ticks);
        assert(all =~= before + now);
        if now.contains(s) {
            let k = choose|k: int| 0 <= k < now.len() && now[k] == s;
            let tx = t.round->0.scratch@[k];
            assert(now[k] == (Scratch {
                route_index: p.route_index,
                datagram: ping(i, tx, t.round->0.toward),
            }));
            assert(t.round->0.scratch@.contains(tx));
            assert(is_scratched(p, t, i as int, s));
            assert(all[before.len() + k] == s);
        }
        if is_scratched(p, t, i as int, s) {
            let tx = s.datagram.request->Ping_tx;
            let k = choose|k: int|
                0 <= k < t.round->0.scratch@.len() && t.round->0.scratch@[k] == tx;
            assert(now[k] == (Scratch {
                route_index: p.route_index,
                datagram: ping(i, tx, t.round->0.toward),
            }));
            assert(now[k] == s);
            assert(now.contains(s));
        }
        if before.contains(s) {
            let k = choose|k: int| 0 <= k < before.len() && before[k] == s;
            assert(all[k] == s);
            let n = choose|n: int|
                0 <= n < init.len() && #[trigger] is_scratched(init[n], ticks[n], n, s);
            assert(is_scratched(peers[n], ticks[n], n, s));
        }
        if all.contains(s) {
            let k = choose|k: int| 0 <= k < all.len() && all[k] == s;
            if k < before.len() {
                assert(before[k] == s);
            } else {
                assert(now[k - before.len()] == s);
            }
        }
        if exists|n: int| 0 <= n < peers.len() && #[trigger] is_scratched(peers[n], ticks[n], n, s) {
            let n = choose|n: int|
                0 <= n < peers.len() && #[trigger] is_scratched(peers[n], ticks[n], n, s);
            if n < init.len() {
                assert(is_scratched(init[n], ticks[n], n, s));
                assert(before.contains(s));
            }
        }
    }
}

/// Whether the search for a peer sends this from a scratch socket.
pub open spec fn is_scratched(p: Peer, tick: Tick, i: int, s: Scratch) -> bool {
    &&& searches(p.searching, tick)
    &&& tick.round is Some
    &&& s.route_index == p.route_index
    &&& s.datagram.key == Key::Peer(i as usize)
    &&& s.datagram.to == tick.round->0.toward
    &&& s.datagram.request matches Request::Ping { tx } && tick.round->0.scratch@.contains(tx)
}

/// A round of discovery sends what the peers' schedules ask for, and nothing
/// else: each probe where it is to go; each advertisement to the peer it is for,
/// unless it is empty; the search's probes and scratch pings while a peer is
/// searched for; and requests to the reflectors if some peer has no path.
pub proof fn a_round_sends_what_is_asked_for(
    d: &mut Disco,
    now: u64,
    limits: Limits,
    ids: &Vec<TxId>,
    ticks: &Vec<Tick>,
    out: Outbound,
    searching: Seq<bool>,
    reflecting: &mut Disco,
    wanted: bool,
    requests: Vec<Datagram>,
    g: Datagram,
    a: (usize, NodeId, Seq<SocketAddr>),
    s: Scratch,
    i: int,
)
    requires
        ids@.len() >= old(d).reflectors@.len(),
        ticks@.len() == old(d).peers@.len() == searching.len(),
        call_ensures(Disco::poll, (d, now, limits, ids, ticks), out),
        forall|k: int|
            0 <= k < ticks@.len() ==> call_ensures(
                Disco::will_search,
                (&*old(d), k as usize, &(#[trigger] ticks@[k])),
                searching[k],
            ),
        *old(reflecting) == *old(d),
        wanted == exists|k: int| 0 <= k < ticks@.len() && !(#[trigger] ticks@[k]).had_path,
        call_ensures(Disco::poll_reflectors, (reflecting, now, limits, ids, wanted), requests),
        0 <= i < old(d).peers@.len(),
    ensures
        out.datagrams@.contains(g) <==> requests@.contains(g) || exists|k: int|
            0 <= k < ticks@.len() && g.key == Key::Peer(k as usize) && #[trigger] is_probed(
                searching[k],
                ticks@[k],
                g.request,
                g.to,
            ),
        out.datagrams@.len() == requests@.len() + pings(searching, ticks@, ticks@.len()),
        out.relayed@.map_values(|x: Advertisement| (x.peer, x.to, x.candidates@)).contains(a)
            <==> a.0 < ticks@.len() && a.1 == old(d).peers@[a.0 as int].their_id && is_advertised(
            ticks@[a.0 as int],
            a.2,
        ),
        out.scratch@.contains(s) <==> exists|k: int|
            0 <= k < ticks@.len() && #[trigger] is_scratched(
                old(d).peers@[k],
                ticks@[k],
                k,
                s,
            ),
        final(d).peers@.len() == old(d).peers@.len(),
        final(d).peers@[i] == (Peer { searching: searching[i], ..old(d).peers@[i] }),
        final(d).reflectors@.len() == old(d).reflectors@.len(),
        forall|k: int|
            0 <= k < old(d).reflectors@.len()
                ==> (#[trigger] final(d).reflectors@[k])@ == final(reflecting).reflectors@[k]@,
{
    let peers = old(d).peers@;
    assert(peers.len() == old(d).peers.len());
    assert forall|k: int| 0 <= k < peers.len() implies #[trigger] searching[k] == searches(
        peers[k].searching,
        ticks@[k],
    ) by {
        assert(call_ensures(
            Disco::will_search,
            (&*old(d), k as usize, &ticks@[k]),
            searching[k],
        ));
    }
    lemma_tick_datagrams(peers, ticks@, searching, g);
    lemma_tick_adverts(peers, ticks@, a);
    lemma_tick_scratch(peers, ticks@, s);
    assert(wanted == some_unconnected(ticks@));
    let asked = tick_datagrams(peers, ticks@);
    assert(out.datagrams@ =~= requests@ + asked + Seq::<Datagram>::empty());
    lemma_in_three(requests@, asked, Seq::<Datagram>::empty(), g);
    assert(out.relayed@.map_values(|x: Advertisement| (x.peer, x.to, x.candidates@))
        =~= out.relayed@.map_values(|x: Advertisement| advert(x)));
    if !wanted {
        assert(*final(reflecting) == *old(d));
    }
}

/// A reflector is kept under its relay's name: setting one again starts it
/// afresh, at most four are kept, and clearing one forgets that one.
pub proof fn a_reflector_goes_by_its_relay(
    d: &mut Disco,
    relay: NodeId,
    tag: Tag,
    endpoint: SocketAddr,
    accepted: bool,
    n: usize,
    later: &mut Disco,
    removed: bool,
    m: usize,
    k: int,
)
    requires
        old(d).reflectors@.len() <= 4,
        call_ensures(Disco::set_reflector, (d, relay, tag, endpoint), accepted),
        call_ensures(Disco::reflectors, (&*final(d),), n),
        *old(later) == *final(d),
        call_ensures(Disco::clear_reflector, (later, &relay), removed),
        call_ensures(Disco::reflectors, (&*final(later),), m),
        0 <= k < final(d).reflectors@.len(),
    ensures
        ({
            let before = old(d).reflectors@;
            let known = exists|j: int| 0 <= j < before.len() && (#[trigger] before[j]).relay_id == relay;
            &&& accepted == (known || before.len() < 4)
            &&& n == if accepted && !known {
                before.len() + 1
            } else {
                before.len()
            }
            &&& n <= 4
            &&& removed == accepted
            &&& m == if removed {
                n - 1
            } else {
                n as int
            }
            &&& final(d).reflectors@[k].relay_id == relay && accepted ==> {
                let r = final(d).reflectors@[k];
                &&& r.tag == tag && r.endpoint == endpoint
                &&& r.outstanding@.len() == 0 && r.observed is None && r.last_ms is None
            }
            &&& final(d).reflectors@[k].relay_id != relay ==> k < before.len()
                && final(d).reflectors@[k]@ == before[k]@
            &&& accepted ==> exists|j: int|
                0 <= j < n && (#[trigger] final(d).reflectors@[j]).relay_id == relay
            &&& forall|j: int|
                0 <= j < m ==> (#[trigger] final(later).reflectors@[j]).relay_id != relay
        }),
        final(d).peers == old(d).peers && final(later).peers == old(d).peers,
{
    let before = old(d).reflectors@;
    let after = final(d).reflectors@;
    let known = reflector_of(before, relay);
    if known {
        let j = choose|j: int| 0 <= j < before.len() && (#[trigger] before[j]).relay_id == relay;
        assert(after[j]@.relay_id == relay);
        assert(after[j].relay_id == relay);
        assert(reflector_of(after, relay));
    } else if accepted {
        assert(after[before.len() as int]@.relay_id == relay);
        assert(after[before.len() as int].relay_id == relay);
        assert(reflector_of(after, relay));
    }
    if accepted {
        if k < before.len() {
            assert(after[k]@.relay_id == after[k].relay_id);
            assert(after[k]@.outstanding == after[k].outstanding@);
            assert(before[k]@.relay_id == before[k].relay_id);
        } else {
            assert(after[k] == after.last());
            assert(after[k]@.relay_id == after[k].relay_id);
            assert(after[k]@.outstanding == after[k].outstanding@);
        }
    }
    assert forall|j: int| 0 <= j < final(later).reflectors@.len()
        implies (#[trigger] final(later).reflectors@[j]).relay_id != relay by {
        if final(later).reflectors@[j].relay_id == relay {
            assert(reflector_of(final(later).reflectors@, relay));
        }
    }
}

/// A fresh discovery knows nobody; the mapping and the interfaces are those last
/// set, and setting one is news only if it changes it.
pub proof fn what_is_set_is_kept(
    epoch: u32,
    fresh: Disco,
    d: &mut Disco,
    mapping: Option<SocketAddr>,
    mapped: bool,
    later: &mut Disco,
    addresses: &Vec<IpAddr>,
    port: u16,
    changed: bool,
    n: usize,
    i: int,
    j: int,
    ip: IpAddr,
)
    requires
        call_ensures(Disco::new, (epoch,), fresh),
        call_ensures(Disco::set_explicit_mapping, (d, mapping), mapped),
        *old(later) == *final(d),
        call_ensures(Disco::set_interfaces, (later, addresses, port), changed),
        call_ensures(Disco::peer_count, (&*final(later),), n),
    ensures
        fresh.epoch == epoch && fresh.peers@.len() == 0 && fresh.relay_peers@.len() == 0
            && fresh.reflectors@.len() == 0 && fresh.interfaces@.len() == 0
            && fresh.explicit_mapping is None,
        final(later).explicit_mapping == mapping,
        mapped == (old(d).explicit_mapping != mapping),
        changed == (final(later).interfaces@ != old(d).interfaces@),
        crate::candidates::is_listed(final(later).interfaces@, addresses@, port, i, j, ip),
        n == old(d).peers@.len(),
        final(later).peers == old(d).peers && final(later).relay_peers == old(d).relay_peers
            && final(later).epoch == old(d).epoch && final(later).reflectors == old(d).reflectors,
{
    crate::candidates::lemma_is_listed(final(later).interfaces@, addresses@, port, i, j, ip);
}

proof fn lemma_peer_reports(peers: Seq<Peer>, a: SocketAddr)
    ensures
        peer_reports(peers).contains(a) <==> exists|k: int|
            0 <= k < peers.len() && (#[trigger] peers[k]).reflexive == Some(a),
        peer_reports(peers).len() <= peers.len(),
    decreases peers.len(),
{
    if peers.len() > 0 {
        let init = peers.drop_last();
        lemma_peer_reports(init, a);
        let before = peer_reports(init);
        let all = peer_reports(peers);
        if all.contains(a) {
            let k = choose|k: int| 0 <= k < all.len() && all[k] == a;
            if k < before.len() {
                assert(before[k] == a);
                let n = choose|n: int|
                    0 <= n < init.len() && (#[trigger] init[n]).reflexive == Some(a);
                assert(peers[n] == init[n]);
            } else {
                assert(peers[peers.len() - 1].reflexive == Some(a));
            }
        }
        if exists|k: int| 0 <= k < peers.len() && (#[trigger] peers[k]).reflexive == Some(a) {
            let k = choose|k: int|
                0 <= k < peers.len() && (#[trigger] peers[k]).reflexive == Some(a);
            if k < init.len() {
                assert(init[k] == peers[k]);
                let n = choose|n: int| 0 <= n < before.len() && before[n] == a;
                assert(all[n] == a);
            } else {
                assert(all[all.len() - 1] == a);
            }
        }
    }
}

proof fn lemma_reflector_reports(reflectors: Seq<Reflector>, a: SocketAddr)
    ensures
        reflector_reports(reflectors).contains(a) <==> exists|k: int|
            0 <= k < reflectors.len() && (#[trigger] reflectors[k]).observed == Some(a),
        reflector_reports(reflectors).len() <= reflectors.len(),
    decreases reflectors.len(),
{
    if reflectors.len() > 0 {
        let init = reflectors.drop_last();
        lemma_reflector_reports(init, a);
        let before = reflector_reports(init);
        let all = reflector_reports(reflectors);
        if all.contains(a) {
            let k = choose|k: int| 0 <= k < all.len() && all[k] == a;
            if k < before.len() {
                assert(before[k] == a);
                let n = choose|n: int|
                    0 <= n < init.len() && (#[trigger] init[n]).observed == Some(a);
                assert(reflectors[n] == init[n]);
            } else {
                assert(reflectors[reflectors.len() - 1].observed == Some(a));
            }
        }
        if exists|k: int| 0 <= k < reflectors.len() && (#[trigger] reflectors[k]).observed == Some(a) {
            let k = choose|k: int|
                0 <= k < reflectors.len() && (#[trigger] reflectors[k]).observed == Some(a);
            if k < init.len() {
                assert(init[k] == reflectors[k]);
                let n = choose|n: int| 0 <= n < before.len() && before[n] == a;
                assert(all[n] == a);
            } else {
                assert(all[all.len() - 1] == a);
            }
        }
    }
}

/// This node advertises what it knows of itself: its mapping first, its
/// interfaces, and what reflectors and peers have seen of it; nothing that
/// nobody has said. With few interfaces and few peers nothing is left out.
pub proof fn what_is_known_is_advertised(
    d: Disco,
    list: Vec<SocketAddr>,
    a: SocketAddr,
    i: int,
    j: int,
)
    requires
        call_ensures(Disco::candidates, (&d,), list),
    ensures
        ({
            let own = d.explicit_mapping == Some(a) || d.interfaces@.contains(a);
            let reflected = exists|k: int|
                0 <= k < d.reflectors@.len() && (#[trigger] d.reflectors@[k]).observed == Some(a);
            let claimed = exists|k: int|
                0 <= k < d.peers@.len() && (#[trigger] d.peers@[k]).reflexive == Some(a);
            &&& list@.contains(a) ==> own || reflected || claimed
            &&& d.interfaces@.len() < 16 && own ==> list@.contains(a)
            &&& d.interfaces@.len() <= 7 && d.reflectors@.len() <= 4 && reflected
                ==> list@.contains(a)
            &&& d.interfaces@.len() <= 7 && d.reflectors@.len() <= 4 && d.peers@.len() <= 4
                && claimed ==> list@.contains(a)
        }),
        d.explicit_mapping is Some ==> list@.len() > 0 && list@[0] == d.explicit_mapping->0,
        list@.len() <= 16,
        0 <= i < j < list@.len() ==> list@[i] != list@[j],
{
    let reflected = reflector_reports(d.reflectors@);
    let claimed = peer_reports(d.peers@);
    lemma_reflector_reports(d.reflectors@, a);
    lemma_peer_reports(d.peers@, a);
    crate::candidates::lemma_known(
        d.explicit_mapping,
        d.interfaces@,
        reflected,
        claimed,
        list@,
        a,
        i,
        j,
    );
}

/// A description of discovery names how many peers there are, and the epoch.
pub proof fn a_description_gives_the_numbers(d: Disco, s: String, n: nat, e: nat)
    requires
        call_ensures(Disco::describe, (&d,), s),
        n == d.peers@.len(),
        e == d.epoch,
    ensures
        s@ == "Disco { peers: "@ + decimal_text(n) + ", epoch: "@ + decimal_text(e) + ", .. }"@,
{
}

} // verus!

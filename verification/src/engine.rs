//! The node's datapath decisions: which peer a packet belongs to, whether
//! policy allows it, and how it reaches its peer.
//!
//! A direct endpoint wins whenever there is one; the relay carries the traffic
//! whenever there is not. Cryptography, reassembly, and sessions live outside;
//! what they report comes in as plain values.

use crate::addr::{IpAddr, SocketAddr};
use crate::bytes::Bytes;
use crate::config::{encode_hex, hex_of};
use crate::filter::{
    all_valid, judge, rule_set, Direction, Packet, PacketFilter, SshFilter, Verdict,
};
use crate::flow::{alive, flow_key, put, touched, Flows, Key, SshAdmissions};
use crate::routing::{owner, AllowedIps, PeerIndex, Prefix};
use crate::text::texts;
use vstd::prelude::*;

verus! {

/// A node id as relays know it.
pub type RelayId = Bytes<32>;

/// How long this node believes its own relay when it says that a peer is not
/// there: five minutes.
pub const HOME_RELAY_RETRY_MS: u64 = 300_000;

/// How a datagram reaches its peer.
#[derive(Clone, Copy, Debug, PartialEq, Eq)]
pub enum Via {
    /// Straight to the peer on the shared UDP socket.
    Direct(SocketAddr),
    /// Through a relay: this node's own when `relay` is `None`, else the peer's
    /// published home.
    Relay { relay: Option<RelayId>, destination: RelayId },
}

/// How a peer's traffic currently leaves this node.
#[derive(Clone, Copy, Debug, PartialEq, Eq, Structural)]
pub enum Transport {
    /// Straight to the peer.
    Direct,
    /// Through a relay.
    Relay,
    /// Nowhere.
    Unreachable,
}

impl Transport {
    /// The word for the transport.
    pub open spec fn text(self) -> Seq<char> {
        match self {
            Transport::Direct => "direct"@,
            Transport::Relay => "relay"@,
            Transport::Unreachable => "none"@,
        }
    }

    /// The word for the transport.
    pub fn to_text(self) -> (s: String)
        ensures
            s@ == self.text(),
    {
        match self {
            Transport::Direct => String::from_str("direct"),
            Transport::Relay => String::from_str("relay"),
            Transport::Unreachable => String::from_str("none"),
        }
    }
}

/// Counters. They wrap.
#[derive(Clone, Copy, Debug, PartialEq, Eq, Structural)]
pub struct Stats {
    /// Packets from the host with no peer owning the destination.
    pub unroutable: u64,
    /// Packets from a peer whose source address that peer may not use.
    pub source_violations: u64,
    /// Datagrams discarded by the fragment authenticator.
    pub mac_failures: u64,
    /// Packets encrypted and sent.
    pub tx_packets: u64,
    /// Packets decrypted and delivered to the host.
    pub rx_packets: u64,
    /// Packets dropped because no session was established yet.
    pub tx_dropped_no_session: u64,
    /// Authenticated-decryption failures on inbound transport data.
    pub decrypt_failures: u64,
    /// Inbound datagrams that are not fragments.
    pub malformed: u64,
    /// Authenticated packets from a peer that policy refused.
    pub acl_denied_in: u64,
    /// Packets from the host that policy refused.
    pub acl_denied_out: u64,
    /// Packets refused because their ports could not be established.
    pub acl_unclassifiable: u64,
}

/// One more, wrapping.
pub open spec fn bumped(n: u64) -> u64 {
    if n == u64::MAX {
        0
    } else {
        (n + 1) as u64
    }
}

fn bump(n: u64) -> (r: u64)
    ensures
        r == bumped(n),
{
    if n == u64::MAX {
        0
    } else {
        n + 1
    }
}

impl Default for Stats {
    fn default() -> (s: Stats)
        ensures
            s == no_stats(),
    {
        Stats {
            unroutable: 0,
            source_violations: 0,
            mac_failures: 0,
            tx_packets: 0,
            rx_packets: 0,
            tx_dropped_no_session: 0,
            decrypt_failures: 0,
            malformed: 0,
            acl_denied_in: 0,
            acl_denied_out: 0,
            acl_unclassifiable: 0,
        }
    }
}

/// Every counter at zero.
pub open spec fn no_stats() -> Stats {
    Stats {
        unroutable: 0,
        source_violations: 0,
        mac_failures: 0,
        tx_packets: 0,
        rx_packets: 0,
        tx_dropped_no_session: 0,
        decrypt_failures: 0,
        malformed: 0,
        acl_denied_in: 0,
        acl_denied_out: 0,
        acl_unclassifiable: 0,
    }
}

/// One peer of a roster, as far as the datapath is concerned.
pub struct RosterEntry {
    /// What identifies the peer across reconfigurations: a digest of the key
    /// that a handshake authenticates.
    pub hint: Bytes<32>,
    pub endpoint: Option<SocketAddr>,
    /// The peer as relays know it, when its handle is well formed.
    pub relay_id: Option<RelayId>,
    /// The relay that the peer published as its home.
    pub home_relay: Option<RelayId>,
    /// The peer's own ranges.
    pub addresses: Vec<Prefix>,
    /// The pre-shared key with the peer.
    pub psk: Bytes<32>,
}

impl RosterEntry {
    /// The entry of a configured peer. `hint` is the digest of its
    /// encapsulation key, `relay_id` what its handle decodes to.
    pub fn of(peer: &crate::config::Peer, hint: Bytes<32>, relay_id: Option<RelayId>) -> (e:
        RosterEntry)
        ensures
            e.hint == hint,
            e.endpoint == peer.endpoint,
            e.relay_id == relay_id,
            e.home_relay == peer.home_relay,
            e.addresses@ == peer.allowed_ips@,
            e.psk == peer.psk,
    {
        RosterEntry {
            hint,
            endpoint: peer.endpoint,
            relay_id,
            home_relay: peer.home_relay,
            addresses: copy_prefixes(&peer.allowed_ips),
            psk: peer.psk,
        }
    }
}

/// Everything a packet's handling depends on, swapped as a unit.
pub struct Roster {
    pub entries: Vec<RosterEntry>,
    pub routes: AllowedIps,
    pub filter: PacketFilter,
    pub ssh: SshFilter,
    /// The relay registry.
    pub relays: Vec<RelayId>,
    pub psk_epoch: u32,
}

impl Roster {
    /// Every part is valid.
    pub open spec fn wf(self) -> bool {
        &&& self.routes.wf()
        &&& self.filter.wf()
        &&& self.ssh.wf()
        &&& forall|i: int|
            0 <= i < self.entries@.len() ==> all_valid((#[trigger] self.entries@[i]).addresses@)
    }
}

/// What the datapath holds of one peer.
pub struct PeerSlot {
    pub hint: Bytes<32>,
    pub endpoint: Option<SocketAddr>,
    pub relay_id: Option<RelayId>,
    /// The peer's published home, when it is a relay of the registry.
    pub home_relay: Option<RelayId>,
    pub addresses: Vec<Prefix>,
    pub flows: Flows,
    pub admissions: SshAdmissions,
    /// When this node's own relay last said it could not reach this peer; zero
    /// when it has not.
    pub off_home: u64,
    /// The pre-shared key that the next handshake with the peer uses.
    pub psk: Bytes<32>,
}

/// A peer slot as a value.
#[verifier::ext_equal]
pub struct Slot {
    pub hint: Bytes<32>,
    pub endpoint: Option<SocketAddr>,
    pub relay_id: Option<RelayId>,
    pub home_relay: Option<RelayId>,
    pub addresses: Seq<Prefix>,
    pub flows: Map<Key, u64>,
    pub admissions: Map<Key, u64>,
    pub off_home: u64,
    pub psk: Bytes<32>,
}

impl View for PeerSlot {
    type V = Slot;

    open spec fn view(&self) -> Slot {
        Slot {
            hint: self.hint,
            endpoint: self.endpoint,
            relay_id: self.relay_id,
            home_relay: self.home_relay,
            addresses: self.addresses@,
            flows: self.flows@,
            admissions: self.admissions@,
            off_home: self.off_home,
            psk: self.psk,
        }
    }
}

impl PeerSlot {
    /// Every part is valid.
    pub open spec fn wf(self) -> bool {
        self.flows.wf() && self.admissions.wf() && all_valid(self.addresses@)
    }
}

/// The node's datapath.
pub struct Engine {
    pub peers: Vec<PeerSlot>,
    pub routes: AllowedIps,
    pub filter: PacketFilter,
    pub ssh: SshFilter,
    pub relays: Vec<RelayId>,
    pub psk_epoch: u32,
    /// The relay this node itself holds a connection to.
    pub home: Option<RelayId>,
    pub stats: Stats,
}

/// Slots as values.
pub open spec fn slots(peers: Seq<PeerSlot>) -> Seq<Slot> {
    peers.map_values(|p: PeerSlot| p@)
}

/// The last peer that relays know as `id`.
pub open spec fn by_relay_id(peers: Seq<Slot>, id: RelayId) -> Option<PeerIndex>
    decreases peers.len(),
{
    if peers.len() == 0 {
        None
    } else if peers.last().relay_id == Some(id) {
        Some((peers.len() - 1) as usize)
    } else {
        by_relay_id(peers.drop_last(), id)
    }
}

/// The last peer with `hint`.
pub open spec fn by_hint(peers: Seq<Slot>, hint: Bytes<32>) -> Option<PeerIndex>
    decreases peers.len(),
{
    if peers.len() == 0 {
        None
    } else if peers.last().hint == hint {
        Some((peers.len() - 1) as usize)
    } else {
        by_hint(peers.drop_last(), hint)
    }
}

/// The first peer whose endpoint is `addr`.
pub open spec fn at_endpoint(peers: Seq<Slot>, addr: SocketAddr) -> Option<PeerIndex>
    decreases peers.len(),
{
    if peers.len() == 0 {
        None
    } else {
        match at_endpoint(peers.drop_last(), addr) {
            Some(i) => Some(i),
            None => if peers.last().endpoint == Some(addr) {
                Some((peers.len() - 1) as usize)
            } else {
                None
            },
        }
    }
}

/// The relay other than this node's own that carries traffic for a peer: its
/// published home, once this node's relay has said that the peer is not there.
pub open spec fn other_relay(peer: Slot, home: Option<RelayId>) -> Option<RelayId> {
    if peer.off_home != 0 && peer.home_relay is Some && peer.home_relay != home {
        peer.home_relay
    } else {
        None
    }
}

/// How to reach a peer, or `None` if there is no way at all.
pub open spec fn way_to(
    peers: Seq<Slot>,
    relay_configured: bool,
    home: Option<RelayId>,
    peer: PeerIndex,
) -> Option<Via> {
    if peer >= peers.len() {
        None
    } else {
        let p = peers[peer as int];
        match p.endpoint {
            Some(addr) => Some(Via::Direct(addr)),
            None => if !relay_configured {
                None
            } else {
                match p.relay_id {
                    None => None,
                    Some(destination) => Some(
                        Via::Relay { relay: other_relay(p, home), destination },
                    ),
                }
            },
        }
    }
}

/// Whether a packet opens an SSH connection to this node.
pub open spec fn for_ssh(dir: Direction, packet: Packet) -> bool {
    &&& dir == Direction::In
    &&& packet.ports is Some
    &&& packet.ports->0.protocol == 6
    &&& packet.ports->0.destination == 22
}

/// A table after a packet of the flow has been recorded in it.
pub open spec fn recorded(
    m: Map<Key, u64>,
    after: Map<Key, u64>,
    dir: Direction,
    packet: Packet,
    now: u64,
) -> bool {
    match flow_key(dir, packet) {
        Some(key) => put(m, after, key, now),
        None => after == m,
    }
}

/// Whether a table holds the flow of a packet alive.
pub open spec fn held(m: Map<Key, u64>, dir: Direction, packet: Packet, now: u64) -> bool {
    match flow_key(dir, packet) {
        Some(key) => alive(m, key, now),
        None => false,
    }
}

/// A table after the flow of a packet has been looked up in it.
pub open spec fn looked_up(m: Map<Key, u64>, dir: Direction, packet: Packet, now: u64) -> Map<
    Key,
    u64,
> {
    match flow_key(dir, packet) {
        Some(key) => touched(m, key, now),
        None => m,
    }
}

/// What the ACL and connection tracking make of a packet of a known peer.
pub enum Ruling {
    /// A rule permits it, and the flow is recorded.
    Rule,
    /// A rule permits it, but the SSH gate does not admit the peer.
    Gate,
    /// No rule permits it, but it is the other half of a flow.
    Flow,
    /// Neither permits it.
    Refused,
    /// Its ports cannot be established.
    Unclassifiable,
}

/// The ruling on a packet.
pub open spec fn ruling(
    verdict: Verdict,
    ssh: SshFilter,
    slot: Slot,
    peer: PeerIndex,
    dir: Direction,
    packet: Packet,
    now: u64,
) -> Ruling {
    match verdict {
        Verdict::Permit => if for_ssh(dir, packet) && ssh.0 is Some && !held(
            slot.admissions,
            dir,
            packet,
            now,
        ) && ssh.verdict(peer) !is Permit {
            Ruling::Gate
        } else {
            Ruling::Rule
        },
        Verdict::Denied => if held(slot.flows, dir, packet, now) {
            Ruling::Flow
        } else {
            Ruling::Refused
        },
        Verdict::Unclassifiable => Ruling::Unclassifiable,
    }
}

/// Whether a ruling lets the packet pass.
pub open spec fn passes(r: Ruling) -> bool {
    r is Rule || r is Flow
}

/// The counters after a ruling.
pub open spec fn counted(s: Stats, r: Ruling, dir: Direction) -> Stats {
    match r {
        Ruling::Rule | Ruling::Flow => s,
        Ruling::Gate | Ruling::Refused => match dir {
            Direction::In => Stats { acl_denied_in: bumped(s.acl_denied_in), ..s },
            Direction::Out => Stats { acl_denied_out: bumped(s.acl_denied_out), ..s },
        },
        Ruling::Unclassifiable => Stats {
            acl_unclassifiable: bumped(s.acl_unclassifiable),
            ..s
        },
    }
}

/// A slot after a ruling: a flow is recorded only where a rule permitted the
/// packet, and an admission only where the SSH gate admitted it.
pub open spec fn slot_after(
    before: Slot,
    after: Slot,
    r: Ruling,
    gated: bool,
    dir: Direction,
    packet: Packet,
    now: u64,
) -> bool {
    &&& after == (Slot { flows: after.flows, admissions: after.admissions, ..before })
    &&& match r {
        Ruling::Rule => {
            &&& recorded(before.flows, after.flows, dir, packet, now)
            &&& if !gated {
                after.admissions == before.admissions
            } else if held(before.admissions, dir, packet, now) {
                after.admissions == looked_up(before.admissions, dir, packet, now)
            } else {
                recorded(
                    looked_up(before.admissions, dir, packet, now),
                    after.admissions,
                    dir,
                    packet,
                    now,
                )
            }
        },
        Ruling::Gate => after.flows == before.flows && after.admissions == looked_up(
            before.admissions,
            dir,
            packet,
            now,
        ),
        Ruling::Flow | Ruling::Refused => after.admissions == before.admissions && after.flows
            == looked_up(before.flows, dir, packet, now),
        Ruling::Unclassifiable => after == before,
    }
}

/// The length that an IP header gives its packet; `None` when the header is
/// malformed or claims more than there is. Padding after it is not counted.
pub open spec fn total_length(packet: Seq<u8>) -> Option<nat> {
    if packet.len() == 0 {
        None
    } else if packet[0] / 16 == 4 {
        if packet.len() < 4 {
            None
        } else {
            let len = packet[2] as nat * 256 + packet[3] as nat;
            if 20 <= len <= packet.len() {
                Some(len)
            } else {
                None
            }
        }
    } else if packet[0] / 16 == 6 {
        if packet.len() < 6 {
            None
        } else {
            let len = packet[4] as nat * 256 + packet[5] as nat + 40;
            if len <= packet.len() {
                Some(len)
            } else {
                None
            }
        }
    } else {
        None
    }
}

/// Recovers a packet's real length from its IP header.
pub fn ip_total_length(packet: &[u8]) -> (r: Option<usize>)
    ensures
        match total_length(packet@) {
            Some(n) => r is Some && r->0 == n && n <= packet@.len(),
            None => r is None,
        },
{
    if packet.len() == 0 {
        return None;
    }
    if packet[0] / 16 == 4 {
        if packet.len() < 4 {
            return None;
        }
        let len: usize = packet[2] as usize * 256 + packet[3] as usize;
        if len >= 20 && len <= packet.len() {
            Some(len)
        } else {
            None
        }
    } else if packet[0] / 16 == 6 {
        if packet.len() < 6 {
            return None;
        }
        let len: usize = packet[4] as usize * 256 + packet[5] as usize + 40;
        if len <= packet.len() {
            Some(len)
        } else {
            None
        }
    } else {
        None
    }
}

/// The reassembly key of a relayed stream: a byte that begins no unicast
/// address, then the first 17 bytes of the sender's id.
pub fn relay_source_key(id: &RelayId) -> (key: Bytes<18>)
    ensures
        key.0@ == seq![0xffu8] + id.0@.take(17),
{
    let mut bytes = [0u8; 18];
    bytes[0] = 0xff;
    let mut i: usize = 0;
    while i < 17
        invariant
            i <= 17,
            bytes@[0] == 0xff,
            forall|j: int| 0 <= j < i ==> bytes@[j + 1] == id.0@[j],
        decreases 17 - i,
    {
        bytes[i + 1] = id.0[i];
        i = i + 1;
    }
    proof {
        assert forall|k: int| 0 <= k < 18 implies bytes@[k] == (seq![0xffu8] + id.0@.take(
            17,
        ))[k] by {
            if k > 0 {
                assert(bytes@[(k - 1) + 1] == id.0@[k - 1]);
            }
        }
        assert(bytes@ =~= seq![0xffu8] + id.0@.take(17));
    }
    Bytes(bytes)
}

/// The session index of the peer at `i`: one more than its position, wrapping
/// in 32 bits.
pub open spec fn session_index(i: usize) -> u32 {
    if i < u32::MAX {
        (i + 1) as u32
    } else {
        0
    }
}

/// The session index of the peer at `i`, or zero when there is none.
pub fn local_index(peer: Option<PeerIndex>) -> (r: u32)
    ensures
        r == match peer {
            Some(i) => session_index(i),
            None => 0,
        },
{
    match peer {
        Some(i) => if i < 0xffff_ffff {
            i as u32 + 1
        } else {
            0
        },
        None => 0,
    }
}

/// The message types that a fragment may belong to: the type is visible on the
/// first fragment only, so later ones are checked against all of them.
pub fn mac_types(payload: &[u8]) -> (types: Vec<u8>)
    ensures
        types@ == seq![
            if payload@.len() > 0 {
                payload@[0]
            } else {
                0
            },
            1,
            2,
            4,
        ],
{
    let claimed: u8 = if payload.len() > 0 {
        payload[0]
    } else {
        0
    };
    let mut types: Vec<u8> = Vec::new();
    types.push(claimed);
    types.push(1);
    types.push(2);
    types.push(4);
    types
}

/// What a complete message is, and whose.
#[derive(Clone, Copy, Debug, PartialEq, Eq, Structural)]
pub enum Attribution {
    /// A handshake to answer. `known` is the peer at its source, whose last
    /// answer is repeated if the message is a repeat.
    Handshake { known: Option<PeerIndex>, index: u32 },
    /// Transport data of this peer.
    Transport(PeerIndex),
    /// Anything else, for this peer's session.
    Session(PeerIndex),
    /// Nobody's.
    Nobody,
}

/// What a complete message is, given the peer at its source.
pub open spec fn attribution(message: Seq<u8>, peer: Option<PeerIndex>) -> Attribution {
    if message.len() > 0 && message[0] == 1 {
        Attribution::Handshake {
            known: peer,
            index: match peer {
                Some(i) => session_index(i),
                None => 0,
            },
        }
    } else {
        match peer {
            None => Attribution::Nobody,
            Some(i) => if message.len() > 0 && message[0] == 4 {
                Attribution::Transport(i)
            } else {
                Attribution::Session(i)
            },
        }
    }
}

fn attribute(message: &[u8], peer: Option<PeerIndex>) -> (r: Attribution)
    ensures
        r == attribution(message@, peer),
{
    if message.len() > 0 && message[0] == 1 {
        return Attribution::Handshake { known: peer, index: local_index(peer) };
    }
    match peer {
        None => Attribution::Nobody,
        Some(i) => if message.len() > 0 && message[0] == 4 {
            Attribution::Transport(i)
        } else {
            Attribution::Session(i)
        },
    }
}

/// What a reconfiguration did.
#[derive(Clone, Copy, Debug, PartialEq, Eq, Structural)]
pub struct Reconfigured {
    /// Peers that were not in the previous roster.
    pub added: usize,
    /// Peers dropped from it.
    pub removed: usize,
    /// Peers carried over with their session intact.
    pub kept: usize,
    /// Whether the epoch of the pre-shared keys changed.
    pub epoch_rotated: bool,
}

/// How many of the first `n` entries are in the previous roster.
pub open spec fn kept_count(previous: Seq<Slot>, entries: Seq<RosterEntry>, n: nat) -> nat
    decreases n,
{
    if n == 0 {
        0
    } else {
        kept_count(previous, entries, (n - 1) as nat) + if by_hint(
            previous,
            entries[n - 1].hint,
        ) is Some {
            1nat
        } else {
            0
        }
    }
}

/// How many different hints a roster has.
pub open spec fn distinct_hints(peers: Seq<Slot>) -> nat
    decreases peers.len(),
{
    if peers.len() == 0 {
        0
    } else {
        distinct_hints(peers.drop_last()) + if by_hint(
            peers.drop_last(),
            peers.last().hint,
        ) is Some {
            0nat
        } else {
            1
        }
    }
}

/// The relay that an entry published, when the registry has it.
pub open spec fn registered(relays: Seq<RelayId>, id: Option<RelayId>) -> Option<RelayId> {
    match id {
        Some(id) => if relays.contains(id) {
            Some(id)
        } else {
            None
        },
        None => None,
    }
}

/// The slot that an entry gets. A peer of the previous roster keeps its learned
/// endpoint and what its relay said; flows are cached permissions, and start
/// empty.
pub open spec fn slot_for(entry: RosterEntry, relays: Seq<RelayId>, previous: Seq<Slot>) -> Slot {
    let carried = by_hint(previous, entry.hint);
    Slot {
        hint: entry.hint,
        endpoint: match carried {
            Some(i) => previous[i as int].endpoint,
            None => entry.endpoint,
        },
        relay_id: entry.relay_id,
        home_relay: registered(relays, entry.home_relay),
        addresses: entry.addresses@,
        flows: Map::empty(),
        admissions: Map::empty(),
        off_home: match carried {
            Some(i) => previous[i as int].off_home,
            None => 0,
        },
        psk: entry.psk,
    }
}

/// A peer of the previous roster that a new one keeps.
#[derive(Clone, Copy, Debug, PartialEq, Eq, Structural)]
pub struct Kept {
    /// Where it stood: its session is carried over with its keys.
    pub from: PeerIndex,
    /// Whether that session is to be re-armed, so that its next handshake uses
    /// the pre-shared key and the epoch now in force.
    pub rearm: bool,
}

/// What becomes of the session of an entry's peer: none, unless the previous
/// roster has the peer. It is re-armed when the pre-shared key or the epoch
/// changed, and only then.
pub open spec fn kept_as(
    entry: RosterEntry,
    epoch: u32,
    previous: Seq<Slot>,
    previous_epoch: u32,
) -> Option<Kept> {
    match by_hint(previous, entry.hint) {
        Some(i) => Some(
            Kept {
                from: i,
                rearm: entry.psk != previous[i as int].psk || epoch != previous_epoch,
            },
        ),
        None => None,
    }
}

proof fn lemma_by_hint(peers: Seq<Slot>, hint: Bytes<32>)
    requires
        peers.len() <= usize::MAX,
    ensures
        match by_hint(peers, hint) {
            Some(i) => i < peers.len() && peers[i as int].hint == hint,
            None => forall|k: int| 0 <= k < peers.len() ==> (#[trigger] peers[k]).hint != hint,
        },
    decreases peers.len(),
{
    if peers.len() > 0 {
        let init = peers.drop_last();
        lemma_by_hint(init, hint);
        if by_hint(peers, hint) is None {
            assert forall|k: int| 0 <= k < peers.len() implies (#[trigger] peers[k]).hint
                != hint by {
                if k < init.len() {
                    assert(init[k].hint != hint);
                }
            }
        }
    }
}

fn find_hint(peers: &Vec<PeerSlot>, hint: Bytes<32>, n: usize) -> (r: Option<PeerIndex>)
    requires
        n <= peers@.len(),
    ensures
        r == by_hint(slots(peers@).take(n as int), hint),
        r is Some ==> r->0 < n,
{
    let mut i: usize = n;
    while i > 0
        invariant
            i <= n <= peers@.len(),
            by_hint(slots(peers@).take(n as int), hint) == by_hint(
                slots(peers@).take(i as int),
                hint,
            ),
        decreases i,
    {
        assert(slots(peers@).take(i as int).drop_last() =~= slots(peers@).take(i - 1));
        assert(slots(peers@).take(i as int).last() == peers@[i - 1]@);
        if peers[i - 1].hint == hint {
            return Some(i - 1);
        }
        i = i - 1;
    }
    None
}

fn is_registered(relays: &Vec<RelayId>, id: Option<RelayId>) -> (r: Option<RelayId>)
    ensures
        r == registered(relays@, id),
{
    match id {
        None => None,
        Some(wanted) => {
            let mut i: usize = 0;
            while i < relays.len()
                invariant
                    i <= relays@.len(),
                    id == Some(wanted),
                    forall|j: int| 0 <= j < i ==> relays@[j] != wanted,
                decreases relays@.len() - i,
            {
                if relays[i] == wanted {
                    assert(relays@[i as int] == wanted);
                    return Some(wanted);
                }
                i = i + 1;
            }
            None
        },
    }
}

/// Builds the slots of a roster, carrying over what is known of peers of the
/// previous one, and says what becomes of the session of each.
fn build_roster(
    entries: Vec<RosterEntry>,
    relays: &Vec<RelayId>,
    epoch: u32,
    previous: &Vec<PeerSlot>,
    previous_epoch: u32,
) -> (r: (Vec<PeerSlot>, Vec<Option<Kept>>))
    requires
        forall|i: int|
            0 <= i < entries@.len() ==> all_valid((#[trigger] entries@[i]).addresses@),
    ensures
        r.0@.len() == entries@.len(),
        r.1@.len() == entries@.len(),
        forall|i: int|
            0 <= i < entries@.len() ==> {
                &&& (#[trigger] r.0@[i])@ == slot_for(entries@[i], relays@, slots(previous@))
                &&& r.0@[i].wf()
            },
        forall|i: int|
            0 <= i < entries@.len() ==> #[trigger] r.1@[i] == kept_as(
                entries@[i],
                epoch,
                slots(previous@),
                previous_epoch,
            ),
{
    let mut peers: Vec<PeerSlot> = Vec::new();
    let mut carried: Vec<Option<Kept>> = Vec::new();
    let count: usize = previous.len();
    let total: usize = entries.len();
    let mut n: usize = 0;
    assert(slots(previous@).take(count as int) =~= slots(previous@));
    while n < total
        invariant
            n <= total == entries@.len(),
            count == previous@.len(),
            slots(previous@).take(count as int) == slots(previous@),
            forall|i: int|
                0 <= i < entries@.len() ==> all_valid((#[trigger] entries@[i]).addresses@),
            peers@.len() == n,
            carried@.len() == n,
            forall|i: int|
                0 <= i < n ==> {
                    &&& (#[trigger] peers@[i])@ == slot_for(
                        entries@[i],
                        relays@,
                        slots(previous@),
                    )
                    &&& peers@[i].wf()
                },
            forall|i: int|
                0 <= i < n ==> #[trigger] carried@[i] == kept_as(
                    entries@[i],
                    epoch,
                    slots(previous@),
                    previous_epoch,
                ),
        decreases total - n,
    {
        let entry = &entries[n];
        let found = find_hint(previous, entry.hint, count);
        let (endpoint, off_home) = match found {
            Some(i) => (previous[i].endpoint, previous[i].off_home),
            None => (entry.endpoint, 0u64),
        };
        proof {
            if let Some(i) = found {
                assert(slots(previous@)[i as int] == previous@[i as int]@);
            }
        }
        let slot = PeerSlot {
            hint: entry.hint,
            endpoint,
            relay_id: entry.relay_id,
            home_relay: is_registered(relays, entry.home_relay),
            addresses: copy_prefixes(&entry.addresses),
            flows: Flows::new(),
            admissions: SshAdmissions::new(),
            off_home,
            psk: entry.psk,
        };
        let kept = match found {
            Some(i) => Some(
                Kept { from: i, rearm: entry.psk != previous[i].psk || epoch != previous_epoch },
            ),
            None => None,
        };
        assert(slot@ == slot_for(entries@[n as int], relays@, slots(previous@)));
        peers.push(slot);
        carried.push(kept);
        n = n + 1;
    }
    (peers, carried)
}

fn copy_prefixes(list: &Vec<Prefix>) -> (r: Vec<Prefix>)
    ensures
        r@ == list@,
{
    let mut r: Vec<Prefix> = Vec::new();
    let mut i: usize = 0;
    while i < list.len()
        invariant
            i <= list@.len(),
            r@ == list@.take(i as int),
        decreases list@.len() - i,
    {
        r.push(list[i]);
        i = i + 1;
    }
    assert(list@.take(i as int) =~= list@);
    r
}

/// What the engine wants done, having processed an input.
#[derive(Debug)]
pub struct Output {
    /// Datagrams to send, each with the transport that carries it.
    pub datagrams: Vec<(Vec<u8>, Via)>,
    /// Plaintext IP packets to hand to the host.
    pub packets: Vec<Vec<u8>>,
}

/// What the engine wants done, as a value.
#[verifier::ext_equal]
pub struct Sent {
    pub datagrams: Seq<(Seq<u8>, Via)>,
    pub packets: Seq<Seq<u8>>,
}

impl View for Output {
    type V = Sent;

    open spec fn view(&self) -> Sent {
        Sent {
            datagrams: self.datagrams@.map_values(|d: (Vec<u8>, Via)| (d.0@, d.1)),
            packets: self.packets@.map_values(|p: Vec<u8>| p@),
        }
    }
}

impl Default for Output {
    /// Nothing to do.
    fn default() -> (o: Output)
        ensures
            o@ == (Sent { datagrams: seq![], packets: seq![] }),
    {
        let o = Output { datagrams: Vec::new(), packets: Vec::new() };
        assert(o@.datagrams =~= seq![]);
        assert(o@.packets =~= seq![]);
        o
    }
}

impl Output {
    /// Whether there is nothing to do.
    pub fn is_empty(&self) -> (r: bool)
        ensures
            r == (self@.datagrams.len() == 0 && self@.packets.len() == 0),
    {
        self.datagrams.len() == 0 && self.packets.len() == 0
    }

    fn send(&mut self, datagram: Vec<u8>, via: Via)
        ensures
            final(self)@ == (Sent {
                datagrams: old(self)@.datagrams.push((datagram@, via)),
                ..old(self)@
            }),
    {
        let ghost before = self@;
        self.datagrams.push((datagram, via));
        assert(self@.datagrams =~= before.datagrams.push((datagram@, via)));
    }

    fn deliver(&mut self, packet: Vec<u8>)
        ensures
            final(self)@ == (Sent { packets: old(self)@.packets.push(packet@), ..old(self)@ }),
    {
        let ghost before = self@;
        self.packets.push(packet);
        assert(self@.packets =~= before.packets.push(packet@));
    }
}

/// What a session wants done.
#[derive(Debug)]
pub enum Action {
    /// Send a datagram.
    Send(Vec<u8>),
    /// Deliver a decrypted packet, `packet` being what its headers say.
    Deliver { packet: Packet, raw: Vec<u8> },
    Established,
    Closed,
}

/// What to do about a handshake.
#[derive(Clone, Copy, Debug, PartialEq, Eq, Structural)]
pub enum Answer {
    /// It was answered before: say the same again.
    Repeat(PeerIndex),
    /// Let the session with this peer adopt it.
    Adopt(PeerIndex),
    /// Say nothing. Every reason looks the same from outside: an answer would
    /// make this node an oracle for who is on its roster.
    Discard,
}

/// What one action of a session changes.
pub open spec fn acted(
    before: Engine,
    after: Engine,
    peer: PeerIndex,
    action: Action,
    via: Option<Via>,
    now: u64,
    out: Sent,
    sent: Sent,
) -> bool {
    match action {
        Action::Send(datagram) => {
            &&& after == before
            &&& sent == match via {
                Some(via) => Sent { datagrams: out.datagrams.push((datagram@, via)), ..out },
                None => out,
            }
        },
        Action::Deliver { packet, raw } => exists|r: Option<Seq<u8>>|
            {
                &&& #[trigger] before.delivered(after, peer, packet, raw@, now, r)
                &&& sent == match r {
                    Some(bytes) => Sent { packets: out.packets.push(bytes), ..out },
                    None => out,
                }
            },
        Action::Established | Action::Closed => after == before && sent == out,
    }
}

/// What the actions of a session change, one after another.
pub open spec fn applied(
    before: Engine,
    after: Engine,
    peer: PeerIndex,
    actions: Seq<Action>,
    via: Option<Via>,
    now: u64,
    out: Sent,
    sent: Sent,
) -> bool
    decreases actions.len(),
{
    if actions.len() == 0 {
        after == before && sent == out
    } else {
        exists|mid: Engine, so_far: Sent|
            {
                &&& applied(
                    before,
                    mid,
                    peer,
                    actions.drop_last(),
                    via,
                    now,
                    out,
                    so_far,
                )
                &&& #[trigger] acted(mid, after, peer, actions.last(), via, now, so_far, sent)
            }
    }
}

impl Engine {
    /// Every part is valid.
    pub open spec fn wf(self) -> bool {
        &&& self.routes.wf()
        &&& self.filter.wf()
        &&& self.ssh.wf()
        &&& all_slots_wf(self.peers@)
    }

    /// Everything but the peers and the counters is as in `other`.
    pub open spec fn settings_of(self, other: Engine) -> bool {
        &&& self.routes == other.routes
        &&& self.filter == other.filter
        &&& self.ssh == other.ssh
        &&& self.relays == other.relays
        &&& self.psk_epoch == other.psk_epoch
        &&& self.home == other.home
    }

    /// What is held of a peer; nothing, when the roster has no such peer.
    pub open spec fn slot(self, peer: PeerIndex) -> Slot {
        if peer < self.peers@.len() {
            self.peers@[peer as int]@
        } else {
            Slot {
                hint: arbitrary(),
                endpoint: None,
                relay_id: None,
                home_relay: None,
                addresses: seq![],
                flows: Map::empty(),
                admissions: Map::empty(),
                off_home: 0,
                psk: arbitrary(),
            }
        }
    }

    /// How to reach a peer.
    pub open spec fn way(self, peer: PeerIndex) -> Option<Via> {
        way_to(slots(self.peers@), self.relays@.len() > 0, self.home, peer)
    }

    /// What the rules alone make of a packet.
    pub open spec fn verdict(self, dir: Direction, peer: PeerIndex, packet: Packet) -> Verdict {
        match dir {
            Direction::In => judge(rule_set(self.filter.ingress), peer, packet, None),
            Direction::Out => judge(
                rule_set(self.filter.egress),
                peer,
                packet,
                Some(self.slot(peer).addresses),
            ),
        }
    }

    /// The ruling on a packet.
    pub open spec fn ruling(
        self,
        dir: Direction,
        peer: PeerIndex,
        packet: Packet,
        now: u64,
    ) -> Ruling {
        ruling(
            self.verdict(dir, peer, packet),
            self.ssh,
            self.slot(peer),
            peer,
            dir,
            packet,
            now,
        )
    }

    /// The peers after a ruling on a packet of `peer`: the others are as they
    /// were.
    pub open spec fn ruled(
        self,
        after: Engine,
        dir: Direction,
        peer: PeerIndex,
        packet: Packet,
        now: u64,
    ) -> bool {
        &&& after.peers@.len() == self.peers@.len()
        &&& forall|i: int|
            0 <= i < self.peers@.len() && i != peer ==> (#[trigger] after.peers@[i])@
                == self.peers@[i]@
        &&& peer < self.peers@.len() ==> slot_after(
            self.slot(peer),
            after.slot(peer),
            self.ruling(dir, peer, packet, now),
            for_ssh(dir, packet) && self.ssh.0 is Some,
            dir,
            packet,
            now,
        )
    }

    /// The engine after a decrypted packet of `peer`, and what the host is
    /// handed: nothing, unless the peer is entitled to the source address, the
    /// rules permit the packet, and its length makes sense.
    pub open spec fn delivered(
        self,
        after: Engine,
        peer: PeerIndex,
        packet: Packet,
        raw: Seq<u8>,
        now: u64,
        r: Option<Seq<u8>>,
    ) -> bool {
        let refused = Stats {
            source_violations: bumped(self.stats.source_violations),
            ..self.stats
        };
        let ruling = self.ruling(Direction::In, peer, packet, now);
        let stats = counted(self.stats, ruling, Direction::In);
        &&& after.settings_of(self)
        &&& if !entitled(self.routes.ranges@, peer, packet) {
            r is None && after.stats == refused && slots(after.peers@) == slots(self.peers@)
        } else {
            &&& self.ruled(after, Direction::In, peer, packet, now)
            &&& if !passes(ruling) {
                r is None && after.stats == stats
            } else {
                match total_length(raw) {
                    Some(len) => {
                        &&& r == Some(raw.take(len as int))
                        &&& after.stats == (Stats { rx_packets: bumped(stats.rx_packets), ..stats })
                    },
                    None => r is None && after.stats == (Stats {
                        source_violations: bumped(stats.source_violations),
                        ..stats
                    }),
                }
            }
        }
    }

    /// A datapath over a roster, with nothing carried over.
    pub fn new(roster: Roster) -> (e: Engine)
        requires
            roster.wf(),
        ensures
            e.wf(),
            e.peers@.len() == roster.entries@.len(),
            forall|i: int|
                0 <= i < roster.entries@.len() ==> (#[trigger] e.peers@[i])@ == slot_for(
                    roster.entries@[i],
                    roster.relays@,
                    seq![],
                ),
            e.routes == roster.routes,
            e.filter == roster.filter,
            e.ssh == roster.ssh,
            e.relays == roster.relays,
            e.psk_epoch == roster.psk_epoch,
            e.home is None,
            e.stats == no_stats(),
    {
        let nobody: Vec<PeerSlot> = Vec::new();
        assert(slots(nobody@) =~= seq![]);
        let (peers, _) = build_roster(
            roster.entries,
            &roster.relays,
            roster.psk_epoch,
            &nobody,
            roster.psk_epoch,
        );
        Engine {
            peers,
            routes: roster.routes,
            filter: roster.filter,
            ssh: roster.ssh,
            relays: roster.relays,
            psk_epoch: roster.psk_epoch,
            home: None,
            stats: Stats::default(),
        }
    }

    /// Replaces the roster without disturbing what survives it.
    ///
    /// A peer is the same peer when its hint is. Counters and the home relay
    /// stay; every flow is forgotten, so that a revocation revokes. A changed
    /// pre-shared key or epoch does not end a session: it keeps its keys, and
    /// only its next handshake uses the new material. Beside what changed, says
    /// for each new peer what becomes of its session.
    pub fn reconfigure(&mut self, roster: Roster) -> (r: (Reconfigured, Vec<Option<Kept>>))
        requires
            old(self).wf(),
            roster.wf(),
        ensures
            final(self).wf(),
            final(self).peers@.len() == roster.entries@.len(),
            forall|i: int|
                0 <= i < roster.entries@.len() ==> (#[trigger] final(self).peers@[i])@ == slot_for(
                    roster.entries@[i],
                    roster.relays@,
                    slots(old(self).peers@),
                ),
            final(self).routes == roster.routes,
            final(self).filter == roster.filter,
            final(self).ssh == roster.ssh,
            final(self).relays == roster.relays,
            final(self).psk_epoch == roster.psk_epoch,
            final(self).home == old(self).home,
            final(self).stats == old(self).stats,
            r.1@.len() == roster.entries@.len(),
            forall|i: int|
                0 <= i < roster.entries@.len() ==> #[trigger] r.1@[i] == kept_as(
                    roster.entries@[i],
                    roster.psk_epoch,
                    slots(old(self).peers@),
                    old(self).psk_epoch,
                ),
            ({
                let previous = slots(old(self).peers@);
                let kept = kept_count(previous, roster.entries@, roster.entries@.len());
                let distinct = distinct_hints(previous);
                &&& r.0.kept == kept
                &&& r.0.added == roster.entries@.len() - kept
                &&& r.0.removed == if distinct >= kept {
                    distinct - kept
                } else {
                    0
                }
                &&& r.0.epoch_rotated == (old(self).psk_epoch != roster.psk_epoch)
            }),
    {
        let ghost previous = slots(self.peers@);
        let ghost entries = roster.entries@;
        let count: usize = roster.entries.len();
        let ghost (epoch, previous_epoch) = (roster.psk_epoch, self.psk_epoch);
        let (peers, carried) = build_roster(
            roster.entries,
            &roster.relays,
            roster.psk_epoch,
            &self.peers,
            self.psk_epoch,
        );
        let mut kept: usize = 0;
        let mut n: usize = 0;
        while n < count
            invariant
                n <= count == entries.len() == carried@.len(),
                kept <= n,
                kept == kept_count(previous, entries, n as nat),
                forall|i: int|
                    0 <= i < entries.len() ==> #[trigger] carried@[i] == kept_as(
                        entries[i],
                        epoch,
                        previous,
                        previous_epoch,
                    ),
            decreases count - n,
        {
            if carried[n].is_some() {
                kept = kept + 1;
            }
            n = n + 1;
        }
        let distinct: usize = count_hints(&self.peers);
        let removed: usize = if distinct >= kept {
            distinct - kept
        } else {
            0
        };
        let epoch_rotated = self.psk_epoch != roster.psk_epoch;
        self.peers = peers;
        self.routes = roster.routes;
        self.filter = roster.filter;
        self.ssh = roster.ssh;
        self.relays = roster.relays;
        self.psk_epoch = roster.psk_epoch;
        (Reconfigured { added: count - kept, removed, kept, epoch_rotated }, carried)
    }

    /// The pre-shared key and the epoch that the next handshake with a peer
    /// uses.
    pub fn handshake_psk(&self, peer: PeerIndex) -> (r: Option<(Bytes<32>, u32)>)
        ensures
            r == if peer < self.peers@.len() {
                Some((self.slot(peer).psk, self.psk_epoch))
            } else {
                None
            },
    {
        if peer < self.peers.len() {
            Some((self.peers[peer].psk, self.psk_epoch))
        } else {
            None
        }
    }

    /// Tells the engine which relay this node holds.
    pub fn set_home_relay(&mut self, relay_id: Option<RelayId>)
        ensures
            *final(self) == (Engine { home: relay_id, ..*old(self) }),
    {
        self.home = relay_id;
    }

    /// The relay this node holds.
    pub fn home_relay(&self) -> (r: Option<RelayId>)
        ensures
            r == self.home,
    {
        self.home
    }

    /// The registry entry for a relay id, by position: the first of them.
    pub fn relay(&self, relay_id: RelayId) -> (r: Option<usize>)
        ensures
            match r {
                Some(i) => {
                    &&& i < self.relays@.len()
                    &&& self.relays@[i as int] == relay_id
                    &&& forall|j: int| 0 <= j < i ==> self.relays@[j] != relay_id
                },
                None => !self.relays@.contains(relay_id),
            },
    {
        let mut i: usize = 0;
        while i < self.relays.len()
            invariant
                i <= self.relays@.len(),
                forall|j: int| 0 <= j < i ==> self.relays@[j] != relay_id,
            decreases self.relays@.len() - i,
        {
            if self.relays[i] == relay_id {
                return Some(i);
            }
            i = i + 1;
        }
        None
    }

    /// The counters.
    pub fn stats(&self) -> (s: Stats)
        ensures
            s == self.stats,
    {
        self.stats
    }

    /// The endpoint currently believed for a peer.
    pub fn endpoint(&self, peer: PeerIndex) -> (r: Option<SocketAddr>)
        ensures
            r == self.slot(peer).endpoint,
    {
        if peer < self.peers.len() {
            self.peers[peer].endpoint
        } else {
            None
        }
    }

    /// The peer that a relay's source id names.
    pub fn peer_by_relay_id(&self, id: RelayId) -> (r: Option<PeerIndex>)
        ensures
            r == by_relay_id(slots(self.peers@), id),
            r is Some ==> r->0 < self.peers@.len(),
    {
        let mut i: usize = self.peers.len();
        assert(slots(self.peers@).take(i as int) =~= slots(self.peers@));
        while i > 0
            invariant
                i <= self.peers@.len(),
                by_relay_id(slots(self.peers@), id) == by_relay_id(
                    slots(self.peers@).take(i as int),
                    id,
                ),
            decreases i,
        {
            assert(slots(self.peers@).take(i as int).drop_last() =~= slots(self.peers@).take(
                i - 1,
            ));
            assert(slots(self.peers@).take(i as int).last() == self.peers@[i - 1]@);
            if let Some(other) = self.peers[i - 1].relay_id {
                if other == id {
                    return Some(i - 1);
                }
            }
            i = i - 1;
        }
        None
    }

    /// The first peer at an address.
    pub fn peer_at(&self, addr: SocketAddr) -> (r: Option<PeerIndex>)
        ensures
            r == at_endpoint(slots(self.peers@), addr),
            r is Some ==> r->0 < self.peers@.len(),
    {
        let mut found: Option<PeerIndex> = None;
        let mut i: usize = 0;
        while i < self.peers.len()
            invariant
                i <= self.peers@.len(),
                found == at_endpoint(slots(self.peers@).take(i as int), addr),
                found is Some ==> found->0 < i,
            decreases self.peers@.len() - i,
        {
            assert(slots(self.peers@).take(i + 1).drop_last() =~= slots(self.peers@).take(
                i as int,
            ));
            assert(slots(self.peers@).take(i + 1).last() == self.peers@[i as int]@);
            if found.is_none() && self.peers[i].endpoint == Some(addr) {
                found = Some(i);
            }
            i = i + 1;
        }
        assert(slots(self.peers@).take(i as int) =~= slots(self.peers@));
        found
    }

    /// The peer that owns an address.
    pub fn peer_for(&self, addr: IpAddr) -> (r: Option<PeerIndex>)
        requires
            self.wf(),
        ensures
            r == owner(self.routes.ranges@, addr),
    {
        self.routes.route(addr)
    }

    /// How to reach a peer right now, or `None` if there is no way at all.
    pub fn via(&self, peer: PeerIndex) -> (r: Option<Via>)
        ensures
            r == self.way(peer),
    {
        if peer >= self.peers.len() {
            return None;
        }
        let p = &self.peers[peer];
        assert(slots(self.peers@)[peer as int] == p@);
        if let Some(addr) = p.endpoint {
            return Some(Via::Direct(addr));
        }
        if self.relays.len() == 0 {
            return None;
        }
        match p.relay_id {
            None => None,
            Some(destination) => Some(
                Via::Relay { relay: self.other_relay_of(peer), destination },
            ),
        }
    }

    fn other_relay_of(&self, peer: PeerIndex) -> (r: Option<RelayId>)
        requires
            peer < self.peers@.len(),
        ensures
            r == other_relay(self.peers@[peer as int]@, self.home),
    {
        let p = &self.peers[peer];
        if p.off_home == 0 {
            return None;
        }
        match p.home_relay {
            None => None,
            Some(published) => {
                if self.home == Some(published) {
                    None
                } else {
                    Some(published)
                }
            },
        }
    }

    /// Which relay carries traffic for the peer that relays know as `peer_id`;
    /// `None` is this node's own. An advertisement goes this way even when
    /// there is a direct path.
    pub fn relay_for(&self, peer_id: RelayId) -> (r: Option<RelayId>)
        ensures
            r == match by_relay_id(slots(self.peers@), peer_id) {
                Some(i) => other_relay(self.peers@[i as int]@, self.home),
                None => None,
            },
    {
        match self.peer_by_relay_id(peer_id) {
            Some(i) => self.other_relay_of(i),
            None => None,
        }
    }

    /// Records that a datagram from `peer_id` arrived on this node's own relay:
    /// the peer is there, and that outranks anything it published.
    pub fn seen_on_home_relay(&mut self, peer_id: RelayId)
        requires
            old(self).wf(),
        ensures
            final(self).wf(),
            final(self).settings_of(*old(self)),
            final(self).stats == old(self).stats,
            slots(final(self).peers@) == match by_relay_id(slots(old(self).peers@), peer_id) {
                Some(i) => slots(old(self).peers@).update(
                    i as int,
                    Slot { off_home: 0, ..slots(old(self).peers@)[i as int] },
                ),
                None => slots(old(self).peers@),
            },
    {
        if let Some(i) = self.peer_by_relay_id(peer_id) {
            let ghost before = self.peers@;
            self.peers[i].off_home = 0;
            proof {
                lemma_slots_changed(before, self.peers@, i as int);
            }
        }
    }

    /// Records that this node's own relay could not deliver to `peer_id`.
    /// Returns whether the peer now has somewhere else to be tried.
    pub fn relay_unreachable(&mut self, peer_id: RelayId, now: u64) -> (elsewhere: bool)
        requires
            old(self).wf(),
        ensures
            final(self).wf(),
            final(self).settings_of(*old(self)),
            final(self).stats == old(self).stats,
            match by_relay_id(slots(old(self).peers@), peer_id) {
                Some(i) => {
                    let slot = slots(old(self).peers@)[i as int];
                    &&& slots(final(self).peers@) == slots(old(self).peers@).update(
                        i as int,
                        Slot {
                            off_home: if now == 0 {
                                1
                            } else {
                                now
                            },
                            ..slot
                        },
                    )
                    &&& elsewhere == (slot.home_relay is Some && slot.home_relay != old(self).home)
                },
                None => !elsewhere && slots(final(self).peers@) == slots(old(self).peers@),
            },
    {
        match self.peer_by_relay_id(peer_id) {
            Some(i) => {
                let ghost before = self.peers@;
                self.peers[i].off_home = if now == 0 {
                    1
                } else {
                    now
                };
                proof {
                    lemma_slots_changed(before, self.peers@, i as int);
                }
                self.other_relay_of(i).is_some()
            },
            None => false,
        }
    }

    /// Forgets what this node's relay said of peers long enough ago, so that
    /// they are tried on it again.
    pub fn expire_marks(&mut self, now: u64)
        requires
            old(self).wf(),
        ensures
            final(self).wf(),
            final(self).settings_of(*old(self)),
            final(self).stats == old(self).stats,
            final(self).peers@.len() == old(self).peers@.len(),
            forall|i: int|
                0 <= i < old(self).peers@.len() ==> (#[trigger] final(self).peers@[i])@
                    == unmarked(old(self).peers@[i]@, now),
    {
        let ghost before = self.peers@;
        let mut i: usize = 0;
        while i < self.peers.len()
            invariant
                i <= self.peers@.len() == before.len(),
                before == old(self).peers@,
                all_slots_wf(self.peers@),
                self.settings_of(*old(self)),
                self.stats == old(self).stats,
                forall|k: int|
                    0 <= k < i ==> (#[trigger] self.peers@[k])@ == unmarked(before[k]@, now),
                forall|k: int| i <= k < before.len() ==> #[trigger] self.peers@[k] == before[k],
            decreases self.peers@.len() - i,
        {
            let marked: u64 = self.peers[i].off_home;
            if marked != 0 && now.saturating_sub(marked) >= HOME_RELAY_RETRY_MS {
                self.peers[i].off_home = 0;
            }
            i = i + 1;
        }
    }

    /// For each peer, whether it is dialled: there is a way to reach it. The
    /// others are expected to make contact themselves.
    pub fn connect_all(&self) -> (r: Vec<bool>)
        ensures
            r@.len() == self.peers@.len(),
            forall|i: int|
                0 <= i < self.peers@.len() ==> #[trigger] r@[i] == (self.way(i as usize) is Some),
    {
        let mut r: Vec<bool> = Vec::new();
        let mut i: usize = 0;
        while i < self.peers.len()
            invariant
                i <= self.peers@.len(),
                r@.len() == i,
                forall|k: int| 0 <= k < i ==> #[trigger] r@[k] == (self.way(k as usize) is Some),
            decreases self.peers@.len() - i,
        {
            r.push(self.via(i).is_some());
            i = i + 1;
        }
        r
    }

    /// Advances the timers: old marks are forgotten, and each peer that can be
    /// reached is dialled again when its session is idle. Without that, one
    /// rekey lost to packet loss would end a tunnel for good.
    pub fn poll(&mut self, now: u64) -> (redial: Vec<bool>)
        requires
            old(self).wf(),
        ensures
            final(self).wf(),
            final(self).settings_of(*old(self)),
            final(self).stats == old(self).stats,
            final(self).peers@.len() == old(self).peers@.len(),
            forall|i: int|
                0 <= i < old(self).peers@.len() ==> (#[trigger] final(self).peers@[i])@
                    == unmarked(old(self).peers@[i]@, now),
            redial@.len() == old(self).peers@.len(),
            forall|i: int|
                0 <= i < old(self).peers@.len() ==> #[trigger] redial@[i] == (final(self).way(
                    i as usize,
                ) is Some),
    {
        self.expire_marks(now);
        self.connect_all()
    }

    /// Installs a confirmed direct endpoint for a peer.
    pub fn set_endpoint(&mut self, peer: PeerIndex, endpoint: SocketAddr) -> (r: bool)
        requires
            old(self).wf(),
        ensures
            final(self).wf(),
            final(self).settings_of(*old(self)),
            final(self).stats == old(self).stats,
            r == (peer < old(self).peers@.len()),
            slots(final(self).peers@) == if r {
                slots(old(self).peers@).update(
                    peer as int,
                    Slot { endpoint: Some(endpoint), ..slots(old(self).peers@)[peer as int] },
                )
            } else {
                slots(old(self).peers@)
            },
    {
        if peer >= self.peers.len() {
            return false;
        }
        let ghost before = self.peers@;
        self.peers[peer].endpoint = Some(endpoint);
        proof {
            lemma_slots_changed(before, self.peers@, peer as int);
        }
        true
    }

    /// Withdraws the direct endpoint that discovery has given up on, unless
    /// another has been learned since.
    pub fn release_endpoint(&mut self, peer: PeerIndex, installed: SocketAddr) -> (r: bool)
        requires
            old(self).wf(),
        ensures
            final(self).wf(),
            final(self).settings_of(*old(self)),
            final(self).stats == old(self).stats,
            r == (old(self).slot(peer).endpoint == Some(installed)),
            slots(final(self).peers@) == if r {
                slots(old(self).peers@).update(
                    peer as int,
                    Slot { endpoint: None, ..slots(old(self).peers@)[peer as int] },
                )
            } else {
                slots(old(self).peers@)
            },
    {
        if peer >= self.peers.len() || self.peers[peer].endpoint != Some(installed) {
            return false;
        }
        let ghost before = self.peers@;
        self.peers[peer].endpoint = None;
        proof {
            lemma_slots_changed(before, self.peers@, peer as int);
        }
        true
    }

    /// Whether the ACL, rules and connection tracking both, permits a packet.
    ///
    /// One function for both directions, so that no verdict can come to mean
    /// something else on one side. A flow is recorded only where a rule said
    /// yes; a packet whose ports cannot be read is not offered to the flows.
    pub fn permit(&mut self, dir: Direction, peer: PeerIndex, packet: &Packet, now: u64) -> (r: bool)
        requires
            old(self).wf(),
        ensures
            final(self).wf(),
            final(self).settings_of(*old(self)),
            r == passes(old(self).ruling(dir, peer, *packet, now)),
            final(self).stats == counted(
                old(self).stats,
                old(self).ruling(dir, peer, *packet, now),
                dir,
            ),
            old(self).ruled(*final(self), dir, peer, *packet, now),
    {
        let known = peer < self.peers.len();
        let nothing: Vec<Prefix> = Vec::new();
        assert(nothing@ =~= seq![]);
        let verdict = match dir {
            Direction::In => self.filter.ingress(peer, packet),
            Direction::Out => if known {
                self.filter.egress(peer, packet, &self.peers[peer].addresses)
            } else {
                self.filter.egress(peer, packet, &nothing)
            },
        };
        let ghost before = self.peers@;
        match verdict {
            Verdict::Permit => {
                let ssh = match (dir, packet.ports) {
                    (Direction::In, Some(ports)) => ports.protocol == 6 && ports.destination == 22,
                    _ => false,
                };
                if ssh && self.ssh.is_enforcing() {
                    let admitted = if known {
                        self.peers[peer].admissions.is_admitted(dir, packet, now)
                    } else {
                        false
                    };
                    if !admitted {
                        if !self.ssh.admits(peer).permitted() {
                            self.stats.acl_denied_in = bump(self.stats.acl_denied_in);
                            return false;
                        }
                        if known {
                            self.peers[peer].admissions.record(dir, packet, now);
                        }
                    }
                }
                if known {
                    self.peers[peer].flows.record(dir, packet, now);
                }
                true
            },
            Verdict::Denied => {
                if known {
                    if self.peers[peer].flows.permits(dir, packet, now) {
                        return true;
                    }
                }
                match dir {
                    Direction::In => {
                        self.stats.acl_denied_in = bump(self.stats.acl_denied_in);
                    },
                    Direction::Out => {
                        self.stats.acl_denied_out = bump(self.stats.acl_denied_out);
                    },
                }
                false
            },
            Verdict::Unclassifiable => {
                self.stats.acl_unclassifiable = bump(self.stats.acl_unclassifiable);
                false
            },
        }
    }

    /// A packet arrived from the host: whom it goes to and how, once the ACL
    /// has permitted it. A packet that nobody owns, or that cannot be sent, is
    /// dropped and counted.
    pub fn outbound(&mut self, packet: &Packet, now: u64) -> (r: Option<(PeerIndex, Via)>)
        requires
            old(self).wf(),
        ensures
            final(self).wf(),
            final(self).settings_of(*old(self)),
            match destination_peer(old(self).routes.ranges@, *packet) {
                None => {
                    &&& r is None
                    &&& final(self).stats == (Stats {
                        unroutable: bumped(old(self).stats.unroutable),
                        ..old(self).stats
                    })
                    &&& slots(final(self).peers@) == slots(old(self).peers@)
                },
                Some(peer) => {
                    let ruling = old(self).ruling(Direction::Out, peer, *packet, now);
                    let stats = counted(old(self).stats, ruling, Direction::Out);
                    &&& old(self).ruled(*final(self), Direction::Out, peer, *packet, now)
                    &&& if !passes(ruling) {
                        r is None && final(self).stats == stats
                    } else {
                        match old(self).way(peer) {
                            Some(via) => r == Some((peer, via)) && final(self).stats == stats,
                            None => r is None && final(self).stats == (Stats {
                                tx_dropped_no_session: bumped(stats.tx_dropped_no_session),
                                ..stats
                            }),
                        }
                    }
                },
            },
    {
        let peer = match packet.destination {
            Some(dst) => self.routes.route(dst),
            None => None,
        };
        let peer = match peer {
            Some(peer) => peer,
            None => {
                self.stats.unroutable = bump(self.stats.unroutable);
                return None;
            },
        };
        if !self.permit(Direction::Out, peer, packet, now) {
            return None;
        }
        proof {
            lemma_way_after_ruling(*old(self), *self, Direction::Out, peer, *packet, now);
        }
        match self.via(peer) {
            Some(via) => Some((peer, via)),
            None => {
                self.stats.tx_dropped_no_session = bump(self.stats.tx_dropped_no_session);
                None
            },
        }
    }

    /// A packet for `via` was sealed into these fragments, or could not be for
    /// want of a session. Dropping it is right: queueing would mean buffering
    /// without bound for a peer that may never answer.
    pub fn sealed(&mut self, via: Via, fragments: Option<Vec<Vec<u8>>>) -> (out: Output)
        requires
            old(self).wf(),
        ensures
            final(self).wf(),
            final(self).settings_of(*old(self)),
            final(self).peers == old(self).peers,
            out@.packets.len() == 0,
            match fragments {
                Some(all) => {
                    &&& out@.datagrams == all@.map_values(|f: Vec<u8>| (f@, via))
                    &&& final(self).stats == (Stats {
                        tx_packets: bumped(old(self).stats.tx_packets),
                        ..old(self).stats
                    })
                },
                None => {
                    &&& out@.datagrams.len() == 0
                    &&& final(self).stats == (Stats {
                        tx_dropped_no_session: bumped(old(self).stats.tx_dropped_no_session),
                        ..old(self).stats
                    })
                },
            },
    {
        let mut out = Output::default();
        match fragments {
            Some(all) => {
                self.stats.tx_packets = bump(self.stats.tx_packets);
                let ghost wanted = all@.map_values(|f: Vec<u8>| (f@, via));
                let mut i: usize = 0;
                assert(out@.datagrams =~= wanted.take(0));
                while i < all.len()
                    invariant
                        i <= all@.len(),
                        wanted == all@.map_values(|f: Vec<u8>| (f@, via)),
                        out@.datagrams == wanted.take(i as int),
                        out@.packets.len() == 0,
                    decreases all@.len() - i,
                {
                    out.send(crate::bytes::to_vec(all[i].as_slice()), via);
                    assert(wanted.take(i + 1) =~= wanted.take(i as int).push(wanted[i as int]));
                    i = i + 1;
                }
                assert(wanted.take(i as int) =~= wanted);
            },
            None => {
                self.stats.tx_dropped_no_session = bump(self.stats.tx_dropped_no_session);
            },
        }
        out
    }

    /// A datagram arrived: whether it goes on to reassembly. One that is no
    /// fragment, or whose authenticator fails, is dropped and counted.
    pub fn received(&mut self, parsed: bool, authentic: bool) -> (r: bool)
        requires
            old(self).wf(),
        ensures
            final(self).wf(),
            final(self).settings_of(*old(self)),
            final(self).peers == old(self).peers,
            r == (parsed && authentic),
            final(self).stats == if !parsed {
                Stats { malformed: bumped(old(self).stats.malformed), ..old(self).stats }
            } else if !authentic {
                Stats { mac_failures: bumped(old(self).stats.mac_failures), ..old(self).stats }
            } else {
                old(self).stats
            },
    {
        if !parsed {
            self.stats.malformed = bump(self.stats.malformed);
            return false;
        }
        if !authentic {
            self.stats.mac_failures = bump(self.stats.mac_failures);
            return false;
        }
        true
    }

    /// A datagram arrived over a relay, which names the sender: the peer it is
    /// from, if it goes on to reassembly. A sender that is not on the roster is
    /// dropped before anything is counted.
    pub fn received_from_relay(&mut self, source_id: RelayId, parsed: bool, authentic: bool) -> (r:
        Option<PeerIndex>)
        requires
            old(self).wf(),
        ensures
            final(self).wf(),
            final(self).settings_of(*old(self)),
            final(self).peers == old(self).peers,
            ({
                let sender = by_relay_id(slots(old(self).peers@), source_id);
                &&& r == if parsed && authentic {
                    sender
                } else {
                    None
                }
                &&& final(self).stats == if sender is None || (parsed && authentic) {
                    old(self).stats
                } else if !parsed {
                    Stats { malformed: bumped(old(self).stats.malformed), ..old(self).stats }
                } else {
                    Stats { mac_failures: bumped(old(self).stats.mac_failures), ..old(self).stats }
                }
            }),
    {
        let sender = self.peer_by_relay_id(source_id);
        if sender.is_none() {
            return None;
        }
        if self.received(parsed, authentic) {
            sender
        } else {
            None
        }
    }

    /// What a complete message from the socket is, and whose. Attribution by
    /// address is provisional: authentication decides.
    pub fn inbound(&self, message: &[u8], from: SocketAddr) -> (r: Attribution)
        ensures
            r == attribution(message@, at_endpoint(slots(self.peers@), from)),
    {
        attribute(message, self.peer_at(from))
    }

    /// What a complete message that a relay delivered is, and whose: the relay
    /// names the sender. `None` when it names nobody of the roster.
    pub fn inbound_from_relay(&self, source_id: RelayId, message: &[u8]) -> (r: Option<Attribution>)
        ensures
            r == match by_relay_id(slots(self.peers@), source_id) {
                Some(peer) => Some(attribution(message@, Some(peer))),
                None => None,
            },
    {
        match self.peer_by_relay_id(source_id) {
            Some(peer) => Some(attribute(message, Some(peer))),
            None => None,
        }
    }

    /// Answers a handshake from the socket. `repeated` says whether the session
    /// of the peer at that address has answered this very message before;
    /// `resolved` is the hint that the handshake decrypted under, if it did.
    ///
    /// The same message gets the same answer: deriving keys afresh would
    /// displace those that the initiator has already completed under. The
    /// endpoint is learned from a handshake that decrypted, which is how a peer
    /// that moved becomes reachable again.
    pub fn accept_handshake(
        &mut self,
        from: SocketAddr,
        repeated: bool,
        resolved: Option<Bytes<32>>,
    ) -> (r: Answer)
        requires
            old(self).wf(),
        ensures
            final(self).wf(),
            final(self).settings_of(*old(self)),
            final(self).stats == old(self).stats,
            ({
                let peers = slots(old(self).peers@);
                let there = at_endpoint(peers, from);
                let named = match resolved {
                    Some(hint) => by_hint(peers, hint),
                    None => None,
                };
                if there is Some && repeated {
                    r == Answer::Repeat(there->0) && slots(final(self).peers@) == peers
                } else if named is Some {
                    &&& r == Answer::Adopt(named->0)
                    &&& slots(final(self).peers@) == peers.update(
                        named->0 as int,
                        Slot { endpoint: Some(from), ..peers[named->0 as int] },
                    )
                } else {
                    r == Answer::Discard && slots(final(self).peers@) == peers
                }
            }),
    {
        if let Some(peer) = self.peer_at(from) {
            if repeated {
                return Answer::Repeat(peer);
            }
        }
        match self.peer_by_hint(resolved) {
            Some(peer) => {
                self.set_endpoint(peer, from);
                Answer::Adopt(peer)
            },
            None => Answer::Discard,
        }
    }

    /// Answers a handshake that a relay delivered from `expected`. No endpoint
    /// is learned: the address is the relay's. The handshake has to name the
    /// peer that the relay says sent it, so that no admitted peer can replay
    /// another's handshake as its own.
    pub fn accept_relayed_handshake(
        &self,
        expected: PeerIndex,
        repeated: bool,
        resolved: Option<Bytes<32>>,
    ) -> (r: Answer)
        ensures
            r == if repeated && expected < self.peers@.len() {
                Answer::Repeat(expected)
            } else if resolved is Some && by_hint(slots(self.peers@), resolved->0) == Some(expected) {
                Answer::Adopt(expected)
            } else {
                Answer::Discard
            },
    {
        if repeated && expected < self.peers.len() {
            return Answer::Repeat(expected);
        }
        match self.peer_by_hint(resolved) {
            Some(peer) => if peer == expected {
                Answer::Adopt(peer)
            } else {
                Answer::Discard
            },
            None => Answer::Discard,
        }
    }

    fn peer_by_hint(&self, hint: Option<Bytes<32>>) -> (r: Option<PeerIndex>)
        ensures
            r == match hint {
                Some(h) => by_hint(slots(self.peers@), h),
                None => None,
            },
            r is Some ==> r->0 < self.peers@.len(),
    {
        match hint {
            Some(h) => {
                assert(slots(self.peers@).take(self.peers@.len() as int) =~= slots(self.peers@));
                find_hint(&self.peers, h, self.peers.len())
            },
            None => None,
        }
    }

    /// Turns a session's actions into what is to be done.
    pub fn apply(&mut self, peer: PeerIndex, actions: &Vec<Action>, now: u64, out: &mut Output)
        requires
            old(self).wf(),
        ensures
            final(self).wf(),
            applied(
                *old(self),
                *final(self),
                peer,
                actions@,
                old(self).way(peer),
                now,
                old(out)@,
                final(out)@,
            ),
    {
        let via = self.via(peer);
        let ghost start = *self;
        let ghost first = out@;
        let mut i: usize = 0;
        assert(actions@.take(0) =~= seq![]);
        while i < actions.len()
            invariant
                i <= actions@.len(),
                self.wf(),
                applied(
                    start,
                    *self,
                    peer,
                    actions@.take(i as int),
                    via,
                    now,
                    first,
                    out@,
                ),
            decreases actions@.len() - i,
        {
            let ghost mid = *self;
            let ghost so_far = out@;
            assert(actions@.take(i + 1).drop_last() =~= actions@.take(i as int));
            assert(actions@.take(i + 1).last() == actions@[i as int]);
            match &actions[i] {
                Action::Send(datagram) => {
                    if let Some(to) = via {
                        out.send(crate::bytes::to_vec(datagram.as_slice()), to);
                    }
                },
                Action::Deliver { packet, raw } => {
                    match self.deliver_to_host(peer, packet, raw.as_slice(), now) {
                        Some(bytes) => {
                            assert(mid.delivered(*self, peer, *packet, raw@, now, Some(bytes@)));
                            out.deliver(bytes);
                        },
                        None => {
                            assert(mid.delivered(*self, peer, *packet, raw@, now, None));
                        },
                    }
                },
                Action::Established | Action::Closed => {},
            }
            proof {
                let now_done = actions@.take(i + 1);
                assert(acted(mid, *self, peer, now_done.last(), via, now, so_far, out@));
                assert(applied(start, mid, peer, now_done.drop_last(), via, now, first, so_far));
                assert(applied(start, *self, peer, now_done, via, now, first, out@));
            }
            i = i + 1;
        }
        assert(actions@.take(i as int) =~= actions@);
    }

    /// Writes a decrypted packet to the host, cut to its real length, if the
    /// sender is entitled to the source address it claims and policy permits
    /// the packet.
    pub fn deliver_to_host(&mut self, peer: PeerIndex, packet: &Packet, raw: &[u8], now: u64) -> (r:
        Option<Vec<u8>>)
        requires
            old(self).wf(),
        ensures
            final(self).wf(),
            final(self).settings_of(*old(self)),
            match r {
                Some(v) => old(self).delivered(*final(self), peer, *packet, raw@, now, Some(v@)),
                None => old(self).delivered(*final(self), peer, *packet, raw@, now, None),
            },
    {
        let allowed = match packet.addresses {
            Some(addrs) => self.routes.permits(peer, addrs.source),
            None => false,
        };
        if !allowed {
            self.stats.source_violations = bump(self.stats.source_violations);
            return None;
        }
        if !self.permit(Direction::In, peer, packet, now) {
            return None;
        }
        match ip_total_length(raw) {
            Some(len) => {
                self.stats.rx_packets = bump(self.stats.rx_packets);
                Some(leading(raw, len))
            },
            None => {
                self.stats.source_violations = bump(self.stats.source_violations);
                None
            },
        }
    }

    /// Counts transport data that did not decrypt.
    pub fn decrypt_failed(&mut self)
        requires
            old(self).wf(),
        ensures
            final(self).wf(),
            final(self).settings_of(*old(self)),
            final(self).peers == old(self).peers,
            final(self).stats == (Stats {
                decrypt_failures: bumped(old(self).stats.decrypt_failures),
                ..old(self).stats
            }),
    {
        self.stats.decrypt_failures = bump(self.stats.decrypt_failures);
    }

    /// How a peer's traffic leaves this node.
    pub fn transport(&self, peer: PeerIndex) -> (r: Transport)
        ensures
            r == match self.way(peer) {
                Some(Via::Direct(_)) => Transport::Direct,
                Some(Via::Relay { .. }) => Transport::Relay,
                None => Transport::Unreachable,
            },
    {
        match self.via(peer) {
            Some(Via::Direct(_)) => Transport::Direct,
            Some(Via::Relay { .. }) => Transport::Relay,
            None => Transport::Unreachable,
        }
    }

    /// One peer's state: names, endpoints, and session state, and no key
    /// material beyond eight bytes of the hint.
    pub fn status(
        &self,
        index: PeerIndex,
        peer: &crate::config::Peer,
        established: bool,
        rekeying: bool,
    ) -> (s: PeerStatus)
        requires
            index < self.peers@.len(),
        ensures
            s.name@ == peer.name@,
            s.hint@ == hex_of(self.slot(index).hint.0@.take(8)),
            s.endpoint == self.slot(index).endpoint,
            s.established == established,
            s.rekeying == rekeying,
            texts(s.allowed_ips@) == peer.allowed_ips@.map_values(|p: Prefix| p.text()),
            s.psk_is_fallback == peer.psk_is_fallback,
            s.transport == match self.way(index) {
                Some(Via::Direct(_)) => Transport::Direct,
                Some(Via::Relay { .. }) => Transport::Relay,
                None => Transport::Unreachable,
            },
    {
        let mut short: Vec<u8> = Vec::new();
        let mut i: usize = 0;
        let ghost hint = self.peers@[index as int].hint.0@;
        while i < 8
            invariant
                i <= 8,
                index < self.peers@.len(),
                hint == self.peers@[index as int].hint.0@,
                short@ == hint.take(i as int),
            decreases 8 - i,
        {
            short.push(self.peers[index].hint.0[i]);
            assert(hint.take(i + 1) =~= hint.take(i as int).push(hint[i as int]));
            i = i + 1;
        }
        let mut allowed_ips: Vec<String> = Vec::new();
        let ghost shown = peer.allowed_ips@.map_values(|p: Prefix| p.text());
        let mut k: usize = 0;
        assert(texts(allowed_ips@) =~= shown.take(0));
        while k < peer.allowed_ips.len()
            invariant
                k <= peer.allowed_ips@.len(),
                shown == peer.allowed_ips@.map_values(|p: Prefix| p.text()),
                texts(allowed_ips@) == shown.take(k as int),
            decreases peer.allowed_ips@.len() - k,
        {
            let ghost before = allowed_ips@;
            let text = peer.allowed_ips[k].to_text();
            allowed_ips.push(text);
            assert(texts(allowed_ips@) =~= texts(before).push(text@));
            assert(shown.take(k + 1) =~= shown.take(k as int).push(shown[k as int]));
            k = k + 1;
        }
        assert(shown.take(k as int) =~= shown);
        PeerStatus {
            name: peer.name.clone(),
            hint: encode_hex(short.as_slice()),
            endpoint: self.endpoint(index),
            established,
            rekeying,
            allowed_ips,
            psk_is_fallback: peer.psk_is_fallback,
            transport: self.transport(index),
        }
    }
}

/// One peer's state.
#[derive(Debug)]
pub struct PeerStatus {
    pub name: String,
    /// The first bytes of the peer's hint, hex.
    pub hint: String,
    pub endpoint: Option<SocketAddr>,
    pub established: bool,
    pub rekeying: bool,
    pub allowed_ips: Vec<String>,
    pub psk_is_fallback: bool,
    pub transport: Transport,
}

/// Every slot is valid.
pub open spec fn all_slots_wf(peers: Seq<PeerSlot>) -> bool {
    forall|i: int| 0 <= i < peers.len() ==> (#[trigger] peers[i]).wf()
}

/// A slot without a mark that has lived long enough.
pub open spec fn unmarked(slot: Slot, now: u64) -> Slot {
    if slot.off_home != 0 && now >= slot.off_home && now - slot.off_home >= HOME_RELAY_RETRY_MS {
        Slot { off_home: 0, ..slot }
    } else {
        slot
    }
}

/// The peer that a packet from the host goes to.
pub open spec fn destination_peer(
    ranges: Seq<(Prefix, PeerIndex)>,
    packet: Packet,
) -> Option<PeerIndex> {
    match packet.destination {
        Some(dst) => owner(ranges, dst),
        None => None,
    }
}

/// Whether a peer may use the source address of a packet.
pub open spec fn entitled(
    ranges: Seq<(Prefix, PeerIndex)>,
    peer: PeerIndex,
    packet: Packet,
) -> bool {
    match packet.addresses {
        Some(addrs) => owner(ranges, addrs.source) == Some(peer),
        None => false,
    }
}

proof fn lemma_slots_changed(before: Seq<PeerSlot>, after: Seq<PeerSlot>, i: int)
    requires
        0 <= i < before.len(),
        after.len() == before.len(),
        forall|k: int| 0 <= k < before.len() && k != i ==> after[k] == before[k],
    ensures
        slots(after) == slots(before).update(i, after[i]@),
{
    assert(slots(after) =~= slots(before).update(i, after[i]@));
}

/// A ruling does not change how a peer is reached.
proof fn lemma_way_after_ruling(
    before: Engine,
    after: Engine,
    dir: Direction,
    peer: PeerIndex,
    packet: Packet,
    now: u64,
)
    requires
        before.ruled(after, dir, peer, packet, now),
        after.settings_of(before),
    ensures
        after.way(peer) == before.way(peer),
{
    if peer < before.peers@.len() {
        assert(slots(before.peers@)[peer as int] == before.slot(peer));
        assert(slots(after.peers@)[peer as int] == after.slot(peer));
    }
}

fn count_hints(peers: &Vec<PeerSlot>) -> (n: usize)
    ensures
        n == distinct_hints(slots(peers@)),
        n <= peers@.len(),
{
    let mut n: usize = 0;
    let mut i: usize = 0;
    while i < peers.len()
        invariant
            i <= peers@.len(),
            n <= i,
            n == distinct_hints(slots(peers@).take(i as int)),
        decreases peers@.len() - i,
    {
        assert(slots(peers@).take(i + 1).drop_last() =~= slots(peers@).take(i as int));
        assert(slots(peers@).take(i + 1).last() == peers@[i as int]@);
        if find_hint(peers, peers[i].hint, i).is_none() {
            n = n + 1;
        }
        i = i + 1;
    }
    assert(slots(peers@).take(i as int) =~= slots(peers@));
    n
}

fn leading(raw: &[u8], len: usize) -> (r: Vec<u8>)
    requires
        len <= raw@.len(),
    ensures
        r@ == raw@.take(len as int),
{
    let mut r: Vec<u8> = Vec::new();
    let mut i: usize = 0;
    while i < len
        invariant
            i <= len <= raw@.len(),
            r@ == raw@.take(i as int),
        decreases len - i,
    {
        r.push(raw[i]);
        assert(raw@.take(i + 1) =~= raw@.take(i as int).push(raw@[i as int]));
        i = i + 1;
    }
    r
}

/// A direct endpoint wins whenever there is one, whatever is known of relays.
pub proof fn a_direct_endpoint_wins(
    peers: Seq<Slot>,
    relay_configured: bool,
    home: Option<RelayId>,
    peer: PeerIndex,
)
    requires
        peer < peers.len(),
        peers[peer as int].endpoint is Some,
    ensures
        way_to(peers, relay_configured, home, peer) == Some(
            Via::Direct(peers[peer as int].endpoint->0),
        ),
{
}

/// Another relay is used only after this node's own has refused the peer, it is
/// the peer's home relay, and it is never the relay already held.
pub proof fn another_relay_follows_a_refusal(
    peers: Seq<Slot>,
    relay_configured: bool,
    home: Option<RelayId>,
    peer: PeerIndex,
)
    ensures
        way_to(peers, relay_configured, home, peer) matches Some(
            Via::Relay { relay: Some(id), .. },
        ) ==> {
            &&& peer < peers.len()
            &&& peers[peer as int].off_home != 0
            &&& peers[peer as int].home_relay == Some(id)
            &&& home != Some(id)
        },
{
}

/// Every way through a relay needs a relay to be configured, and names the peer
/// as the relay knows it.
pub proof fn a_relayed_datagram_names_its_peer(
    peers: Seq<Slot>,
    relay_configured: bool,
    home: Option<RelayId>,
    peer: PeerIndex,
)
    ensures
        way_to(peers, relay_configured, home, peer) matches Some(Via::Relay { destination, .. })
            ==> relay_configured && peers[peer as int].relay_id == Some(destination)
            && peers[peer as int].endpoint is None,
{
}

/// A reconfiguration revokes every cached permission: no packet passes by flow
/// until a rule has permitted its other half again.
pub proof fn a_reconfiguration_forgets_every_flow(
    entry: RosterEntry,
    relays: Seq<RelayId>,
    previous: Seq<Slot>,
    dir: Direction,
    packet: Packet,
    now: u64,
)
    ensures
        !held(slot_for(entry, relays, previous).flows, dir, packet, now),
        !held(slot_for(entry, relays, previous).admissions, dir, packet, now),
{
}

/// A peer that stays keeps the endpoint that was learned for it.
pub proof fn a_kept_peer_keeps_its_endpoint(
    entry: RosterEntry,
    relays: Seq<RelayId>,
    previous: Seq<Slot>,
    i: int,
)
    requires
        previous.len() <= usize::MAX,
        0 <= i < previous.len(),
        previous[i].hint == entry.hint,
        forall|k: int| 0 <= k < previous.len() && k != i ==> previous[k].hint != entry.hint,
    ensures
        slot_for(entry, relays, previous).endpoint == previous[i].endpoint,
        slot_for(entry, relays, previous).off_home == previous[i].off_home,
{
    lemma_by_hint(previous, entry.hint);
}

/// The next handshake with a peer uses the key of the new roster, whether the
/// peer was kept or not. A kept session that is not re-armed has that key and
/// epoch already; one whose key or epoch changed is re-armed.
pub proof fn a_changed_key_is_used_by_the_next_handshake(
    entry: RosterEntry,
    relays: Seq<RelayId>,
    epoch: u32,
    previous: Seq<Slot>,
    previous_epoch: u32,
)
    ensures
        slot_for(entry, relays, previous).psk == entry.psk,
        kept_as(entry, epoch, previous, previous_epoch) matches Some(kept) ==> {
            &&& !kept.rearm ==> previous[kept.from as int].psk == entry.psk && previous_epoch
                == epoch
            &&& previous[kept.from as int].psk != entry.psk ==> kept.rearm
            &&& previous_epoch != epoch ==> kept.rearm
        },
{
}

/// Every entry of a new roster is either kept or added.
pub proof fn kept_never_exceeds_the_roster(
    previous: Seq<Slot>,
    entries: Seq<RosterEntry>,
    n: nat,
)
    ensures
        kept_count(previous, entries, n) <= n,
    decreases n,
{
    if n > 0 {
        kept_never_exceeds_the_roster(previous, entries, (n - 1) as nat);
    }
}

/// A reassembly key of a relayed stream begins with a byte that no unicast
/// source does, and two senders share one only when their ids agree in the
/// first 17 bytes.
pub proof fn relayed_streams_are_kept_apart(a: RelayId, b: RelayId)
    ensures
        (seq![0xffu8] + a.0@.take(17))[0] == 0xff,
        seq![0xffu8] + a.0@.take(17) == seq![0xffu8] + b.0@.take(17) <==> a.0@.take(17)
            == b.0@.take(17),
{
    let x = seq![0xffu8] + a.0@.take(17);
    let y = seq![0xffu8] + b.0@.take(17);
    if x == y {
        assert(x.skip(1) =~= a.0@.take(17));
        assert(y.skip(1) =~= b.0@.take(17));
    }
}

/// The SSH gate only takes away: a packet that it stops is one that a rule had
/// permitted, and without the SSH gate no packet is stopped by it.
pub proof fn the_gate_only_takes_away(
    verdict: Verdict,
    ssh: SshFilter,
    slot: Slot,
    peer: PeerIndex,
    dir: Direction,
    packet: Packet,
    now: u64,
)
    ensures
        ruling(verdict, ssh, slot, peer, dir, packet, now) is Gate ==> verdict is Permit && ssh.0 is Some
            && for_ssh(dir, packet),
        ssh.0 is None ==> ruling(verdict, ssh, slot, peer, dir, packet, now) !is Gate,
{
}

/// A packet has its real length recovered exactly: the one that its header
/// gives it, big-endian, as long as the bytes are there. Whatever follows it in
/// the buffer is padding.
pub proof fn a_packet_has_the_length_that_its_header_gives(
    packet: &[u8],
    r: Option<usize>,
    n: usize,
)
    requires
        call_ensures(ip_total_length, (packet,), r),
    ensures
        r == Some(n) <==> {
            ||| {
                &&& packet@.len() >= 20 && 0x40 <= packet@[0] < 0x50
                &&& 20 <= n <= packet@.len() && n <= 0xffff
                &&& packet@[2] == n / 256 && packet@[3] == n % 256
            }
            ||| {
                &&& packet@.len() >= 40 && 0x60 <= packet@[0] < 0x70
                &&& 40 <= n <= packet@.len() && n - 40 <= 0xffff
                &&& packet@[4] == (n - 40) / 256 && packet@[5] == (n - 40) % 256
            }
        },
{
}

/// A counter that has gone up by one, or has come round to zero.
pub open spec fn one_more(before: u64, after: u64) -> bool {
    after == before + 1 || (before == u64::MAX && after == 0)
}

/// What policy says of a packet is what the engine does with it. A packet that
/// no rule permits passes only on an open flow, one that cannot be classified
/// never does, and one for the SSH port of this node must be let in by the SSH
/// gate as well. Each refusal is counted once, and the peer's own flows are all
/// that changes.
pub proof fn the_policy_decides(
    e: &mut Engine,
    dir: Direction,
    peer: PeerIndex,
    packet: &Packet,
    now: u64,
    r: bool,
    v: Verdict,
    flows: &mut Flows,
    open: bool,
    admissions: &mut SshAdmissions,
    admitted: bool,
    gate: Verdict,
)
    requires
        peer < old(e).peers@.len(),
        call_ensures(Engine::permit, (e, dir, peer, packet, now), r),
        match dir {
            Direction::In => call_ensures(
                PacketFilter::ingress,
                (&old(e).filter, peer, packet),
                v,
            ),
            Direction::Out => call_ensures(
                PacketFilter::egress,
                (&old(e).filter, peer, packet, &old(e).peers@[peer as int].addresses),
                v,
            ),
        },
        *old(flows) == old(e).peers@[peer as int].flows,
        call_ensures(Flows::permits, (flows, dir, packet, now), open),
        *old(admissions) == old(e).peers@[peer as int].admissions,
        call_ensures(SshAdmissions::is_admitted, (admissions, dir, packet, now), admitted),
        call_ensures(SshFilter::admits, (&old(e).ssh, peer), gate),
    ensures
        ({
            let before = *old(e);
            let after = *final(e);
            let ssh = dir == Direction::In && packet.ports is Some && packet.ports->0.protocol
                == 6 && packet.ports->0.destination == 22 && before.ssh.0 is Some;
            &&& v is Permit ==> r == (!ssh || admitted || gate is Permit)
            &&& v is Denied ==> r == open
            &&& v is Unclassifiable ==> !r
            &&& r ==> after.stats == before.stats
            &&& !r && v is Unclassifiable ==> {
                &&& one_more(before.stats.acl_unclassifiable, after.stats.acl_unclassifiable)
                &&& after.stats == (Stats {
                    acl_unclassifiable: after.stats.acl_unclassifiable,
                    ..before.stats
                })
            }
            &&& !r && v !is Unclassifiable && dir == Direction::In ==> {
                &&& one_more(before.stats.acl_denied_in, after.stats.acl_denied_in)
                &&& after.stats == (Stats {
                    acl_denied_in: after.stats.acl_denied_in,
                    ..before.stats
                })
            }
            &&& !r && v !is Unclassifiable && dir == Direction::Out ==> {
                &&& one_more(before.stats.acl_denied_out, after.stats.acl_denied_out)
                &&& after.stats == (Stats {
                    acl_denied_out: after.stats.acl_denied_out,
                    ..before.stats
                })
            }
            &&& after.routes == before.routes && after.filter == before.filter && after.ssh
                == before.ssh && after.relays == before.relays && after.home == before.home
                && after.psk_epoch == before.psk_epoch
            &&& after.peers@.len() == before.peers@.len()
            &&& forall|i: int|
                0 <= i < before.peers@.len() ==> {
                    &&& (#[trigger] after.peers@[i]).endpoint == before.peers@[i].endpoint
                    &&& after.peers@[i].hint == before.peers@[i].hint
                    &&& after.peers@[i].relay_id == before.peers@[i].relay_id
                    &&& after.peers@[i].home_relay == before.peers@[i].home_relay
                    &&& after.peers@[i].addresses@ == before.peers@[i].addresses@
                    &&& after.peers@[i].off_home == before.peers@[i].off_home
                    &&& after.peers@[i].psk == before.peers@[i].psk
                    &&& i != peer ==> after.peers@[i].flows@ == before.peers@[i].flows@
                        && after.peers@[i].admissions@ == before.peers@[i].admissions@
                }
        }),
{
    let before = *old(e);
    let after = *final(e);
    assert forall|i: int| 0 <= i < before.peers@.len() implies {
        &&& (#[trigger] after.peers@[i]).endpoint == before.peers@[i].endpoint
        &&& after.peers@[i].hint == before.peers@[i].hint
        &&& after.peers@[i].relay_id == before.peers@[i].relay_id
        &&& after.peers@[i].home_relay == before.peers@[i].home_relay
        &&& after.peers@[i].addresses@ == before.peers@[i].addresses@
        &&& after.peers@[i].off_home == before.peers@[i].off_home
        &&& after.peers@[i].psk == before.peers@[i].psk
        &&& i != peer ==> after.peers@[i].flows@ == before.peers@[i].flows@
            && after.peers@[i].admissions@ == before.peers@[i].admissions@
    } by {
        if i == peer {
            assert(after.slot(peer) == after.peers@[i]@);
        } else {
            assert(after.peers@[i]@ == before.peers@[i]@);
        }
    }
}

/// A request that a rule permits has its reply: for two minutes the packets of
/// its conversation pass both ways, though no rule permits them. A peer's
/// conversation opens nothing for another peer.
pub proof fn a_permitted_request_gets_its_reply(
    e: &mut Engine,
    dir: Direction,
    peer: PeerIndex,
    sent: &Packet,
    at: u64,
    v: Verdict,
    later: &mut Engine,
    way: Direction,
    from: PeerIndex,
    back: &Packet,
    now: u64,
    r: bool,
    w: Verdict,
    unasked: &mut Engine,
    q: bool,
)
    requires
        peer < old(e).peers@.len(),
        from < old(e).peers@.len(),
        call_ensures(Engine::permit, (e, dir, peer, sent, at), true),
        match dir {
            Direction::In => call_ensures(PacketFilter::ingress, (&old(e).filter, peer, sent), v),
            Direction::Out => call_ensures(
                PacketFilter::egress,
                (&old(e).filter, peer, sent, &old(e).peers@[peer as int].addresses),
                v,
            ),
        },
        *old(later) == *final(e),
        call_ensures(Engine::permit, (later, way, from, back, now), r),
        match way {
            Direction::In => call_ensures(PacketFilter::ingress, (&old(e).filter, from, back), w),
            Direction::Out => call_ensures(
                PacketFilter::egress,
                (&old(e).filter, from, back, &old(e).peers@[from as int].addresses),
                w,
            ),
        },
        w is Denied,
        *old(unasked) == *old(e),
        call_ensures(Engine::permit, (unasked, way, from, back, now), q),
    ensures
        from == peer && crate::flow::one_conversation(dir, *sent, way, *back) ==> if v is Permit {
            r == (now - at <= 120_000)
        } else {
            r == (v is Denied && now - at <= 120_000)
        },
        from != peer ==> r == q,
        r && !crate::flow::one_conversation(dir, *sent, way, *back) ==> q,
{
    let before = *old(e);
    let mid = *final(e);
    assert(mid.slot(peer) == mid.peers@[peer as int]@);
    assert(mid.slot(from) == mid.peers@[from as int]@);
    assert(before.slot(from) == before.peers@[from as int]@);
    assert(mid.slot(from).addresses == before.slot(from).addresses);
    if from == peer && v is Permit {
        if let (Some(key), Some(other)) = (flow_key(dir, *sent), flow_key(way, *back)) {
            if key != other && r {
                crate::flow::recording_opens_one_flow(
                    before.slot(peer).flows,
                    mid.slot(peer).flows,
                    key,
                    other,
                    at,
                    now,
                );
            }
        }
    }
}

/// A packet of the host goes to the peer that its destination routes to, if
/// policy lets it out and there is a way there. Otherwise it is dropped, and
/// counted: as unroutable, as refused, or as without a session.
pub proof fn a_packet_goes_to_the_peer_that_owns_its_destination(
    e: &mut Engine,
    packet: &Packet,
    now: u64,
    r: Option<(PeerIndex, Via)>,
    owner: Option<PeerIndex>,
    judge: &mut Engine,
    allowed: bool,
    way: Option<Via>,
)
    requires
        call_ensures(Engine::outbound, (e, packet, now), r),
        match packet.destination {
            Some(address) => call_ensures(AllowedIps::route, (&old(e).routes, address), owner),
            None => owner is None,
        },
        *old(judge) == *old(e),
        owner is Some ==> call_ensures(
            Engine::permit,
            (judge, Direction::Out, owner->0, packet, now),
            allowed,
        ),
        owner is Some ==> call_ensures(Engine::via, (&*old(e), owner->0), way),
    ensures
        r == if owner is Some && allowed && way is Some {
            Some((owner->0, way->0))
        } else {
            None
        },
        owner is None ==> {
            &&& one_more(old(e).stats.unroutable, final(e).stats.unroutable)
            &&& final(e).stats == (Stats {
                unroutable: final(e).stats.unroutable,
                ..old(e).stats
            })
        },
        owner is Some && !(allowed && way is None) ==> final(e).stats == final(judge).stats,
        owner is Some && allowed && way is None ==> {
            &&& one_more(
                old(e).stats.tx_dropped_no_session,
                final(e).stats.tx_dropped_no_session,
            )
            &&& final(e).stats == (Stats {
                tx_dropped_no_session: final(e).stats.tx_dropped_no_session,
                ..old(e).stats
            })
        },
{
}

/// The host is given a packet from a peer only if the peer owns the packet's
/// source address and policy lets it in, and then exactly the bytes that the
/// packet's header declares. Each packet is counted once: as delivered, as
/// refused by policy, or as a violation.
pub proof fn the_host_is_given_what_the_peer_may_send(
    e: &mut Engine,
    peer: PeerIndex,
    packet: &Packet,
    raw: &[u8],
    now: u64,
    r: Option<Vec<u8>>,
    owner: Option<PeerIndex>,
    judge: &mut Engine,
    allowed: bool,
    length: Option<usize>,
)
    requires
        call_ensures(Engine::deliver_to_host, (e, peer, packet, raw, now), r),
        match packet.addresses {
            Some(addresses) => call_ensures(
                AllowedIps::route,
                (&old(e).routes, addresses.source),
                owner,
            ),
            None => owner is None,
        },
        *old(judge) == *old(e),
        call_ensures(Engine::permit, (judge, Direction::In, peer, packet, now), allowed),
        call_ensures(ip_total_length, (raw,), length),
    ensures
        r is Some <==> owner == Some(peer) && allowed && length is Some,
        r matches Some(bytes) ==> {
            &&& bytes@.len() == length->0
            &&& forall|i: int| 0 <= i < bytes@.len() ==> #[trigger] bytes@[i] == raw@[i]
            &&& one_more(old(e).stats.rx_packets, final(e).stats.rx_packets)
            &&& final(e).stats == (Stats {
                rx_packets: final(e).stats.rx_packets,
                ..old(e).stats
            })
        },
        owner == Some(peer) && !allowed ==> final(e).stats == final(judge).stats,
        owner != Some(peer) || (allowed && length is None) ==> {
            &&& one_more(old(e).stats.source_violations, final(e).stats.source_violations)
            &&& final(e).stats == (Stats {
                source_violations: final(e).stats.source_violations,
                ..old(e).stats
            })
        },
        owner != Some(peer) ==> slots(final(e).peers@) == slots(old(e).peers@),
{
}

/// A peer is reached at its endpoint while it has one. Without one it is reached
/// through a relay, if there are any and the peer is known to them: through the
/// relay that it publishes, once our own has not found it there, and through our
/// own otherwise.
pub proof fn a_peer_is_reached_directly_or_by_relay(
    e: Engine,
    peer: PeerIndex,
    r: Option<Via>,
    t: Transport,
    endpoint: Option<SocketAddr>,
)
    requires
        call_ensures(Engine::via, (&e, peer), r),
        call_ensures(Engine::transport, (&e, peer), t),
        call_ensures(Engine::endpoint, (&e, peer), endpoint),
    ensures
        peer >= e.peers@.len() ==> r is None && endpoint is None,
        peer < e.peers@.len() ==> {
            let p = e.peers@[peer as int];
            &&& endpoint == p.endpoint
            &&& p.endpoint matches Some(a) ==> r == Some(Via::Direct(a))
            &&& p.endpoint is None ==> {
                &&& r is None <==> e.relays@.len() == 0 || p.relay_id is None
                &&& r matches Some(via) ==> {
                    &&& via matches Via::Relay { relay, destination }
                    &&& p.relay_id == Some(destination)
                    &&& relay is Some <==> p.off_home != 0 && p.home_relay is Some && p.home_relay
                        != e.home
                    &&& relay is Some ==> relay == p.home_relay
                }
            }
        },
        t is Unreachable <==> r is None,
        t is Direct <==> r matches Some(Via::Direct(_)),
        t is Relay <==> r matches Some(Via::Relay { .. }),
{
}

proof fn lemma_by_relay_id(peers: Seq<Slot>, id: RelayId)
    requires
        peers.len() <= usize::MAX,
    ensures
        match by_relay_id(peers, id) {
            Some(i) => {
                &&& i < peers.len()
                &&& peers[i as int].relay_id == Some(id)
                &&& forall|k: int| i < k < peers.len() ==> (#[trigger] peers[k]).relay_id != Some(id)
            },
            None => forall|k: int|
                0 <= k < peers.len() ==> (#[trigger] peers[k]).relay_id != Some(id),
        },
    decreases peers.len(),
{
    if peers.len() > 0 {
        let init = peers.drop_last();
        lemma_by_relay_id(init, id);
        assert forall|k: int| 0 <= k < init.len() implies #[trigger] peers[k] == init[k] by {}
    }
}

proof fn lemma_last_by_hint(peers: Seq<Slot>, hint: Bytes<32>)
    requires
        peers.len() <= usize::MAX,
    ensures
        match by_hint(peers, hint) {
            Some(i) => {
                &&& i < peers.len()
                &&& peers[i as int].hint == hint
                &&& forall|k: int| i < k < peers.len() ==> (#[trigger] peers[k]).hint != hint
            },
            None => forall|k: int| 0 <= k < peers.len() ==> (#[trigger] peers[k]).hint != hint,
        },
    decreases peers.len(),
{
    if peers.len() > 0 {
        let init = peers.drop_last();
        lemma_last_by_hint(init, hint);
        assert forall|k: int| 0 <= k < init.len() implies #[trigger] peers[k] == init[k] by {}
    }
}

proof fn lemma_at_endpoint(peers: Seq<Slot>, addr: SocketAddr)
    requires
        peers.len() <= usize::MAX,
    ensures
        match at_endpoint(peers, addr) {
            Some(i) => {
                &&& i < peers.len()
                &&& peers[i as int].endpoint == Some(addr)
                &&& forall|k: int| 0 <= k < i ==> (#[trigger] peers[k]).endpoint != Some(addr)
            },
            None => forall|k: int|
                0 <= k < peers.len() ==> (#[trigger] peers[k]).endpoint != Some(addr),
        },
    decreases peers.len(),
{
    if peers.len() > 0 {
        let init = peers.drop_last();
        lemma_at_endpoint(init, addr);
        assert forall|k: int| 0 <= k < init.len() implies #[trigger] peers[k] == init[k] by {}
    }
}

/// Whether `i` is the last peer that a relay knows by `id`.
pub open spec fn is_relayed_as(peers: Seq<PeerSlot>, id: RelayId, i: int) -> bool {
    &&& 0 <= i < peers.len()
    &&& peers[i].relay_id == Some(id)
    &&& forall|k: int| i < k < peers.len() ==> (#[trigger] peers[k]).relay_id != Some(id)
}

/// Whether `i` is the first peer that is reached at `addr`.
pub open spec fn is_found_at(peers: Seq<PeerSlot>, addr: SocketAddr, i: int) -> bool {
    &&& 0 <= i < peers.len()
    &&& peers[i].endpoint == Some(addr)
    &&& forall|k: int| 0 <= k < i ==> (#[trigger] peers[k]).endpoint != Some(addr)
}

/// Whether `i` is the last peer that is named by `hint`.
pub open spec fn is_named(peers: Seq<PeerSlot>, hint: Bytes<32>, i: int) -> bool {
    &&& 0 <= i < peers.len()
    &&& peers[i].hint == hint
    &&& forall|k: int| i < k < peers.len() ==> (#[trigger] peers[k]).hint != hint
}

proof fn lemma_found(peers: Seq<PeerSlot>, id: RelayId, addr: SocketAddr, hint: Bytes<32>)
    requires
        peers.len() <= usize::MAX,
    ensures
        by_relay_id(slots(peers), id) matches Some(i) ==> is_relayed_as(peers, id, i as int),
        by_relay_id(slots(peers), id) is None ==> forall|i: int| !is_relayed_as(peers, id, i),
        at_endpoint(slots(peers), addr) matches Some(i) ==> is_found_at(peers, addr, i as int),
        at_endpoint(slots(peers), addr) is None ==> forall|i: int| !is_found_at(peers, addr, i),
        by_hint(slots(peers), hint) matches Some(i) ==> is_named(peers, hint, i as int),
        by_hint(slots(peers), hint) is None ==> forall|i: int| !is_named(peers, hint, i),
{
    let s = slots(peers);
    lemma_by_relay_id(s, id);
    lemma_at_endpoint(s, addr);
    lemma_last_by_hint(s, hint);
    assert forall|k: int| 0 <= k < peers.len() implies {
        &&& (#[trigger] peers[k]).relay_id == s[k].relay_id
        &&& peers[k].endpoint == s[k].endpoint
        &&& peers[k].hint == s[k].hint
    } by {}
}

/// A relay's name for a peer finds that peer, and so does the address that it
/// is reached at; what no peer has finds none.
pub proof fn a_peer_is_found_by_what_is_known_of_it(
    e: Engine,
    id: RelayId,
    by_id: Option<PeerIndex>,
    addr: SocketAddr,
    by_addr: Option<PeerIndex>,
    i: PeerIndex,
)
    requires
        call_ensures(Engine::peer_by_relay_id, (&e, id), by_id),
        call_ensures(Engine::peer_at, (&e, addr), by_addr),
    ensures
        by_id == Some(i) <==> is_relayed_as(e.peers@, id, i as int),
        by_id is None <==> forall|k: int|
            0 <= k < e.peers@.len() ==> (#[trigger] e.peers@[k]).relay_id != Some(id),
        by_addr == Some(i) <==> is_found_at(e.peers@, addr, i as int),
        by_addr is None <==> forall|k: int|
            0 <= k < e.peers@.len() ==> (#[trigger] e.peers@[k]).endpoint != Some(addr),
{
    assert(e.peers@.len() == e.peers.len());
    lemma_found(e.peers@, id, addr, e.peers@[0].hint);
    let s = slots(e.peers@);
    lemma_by_relay_id(s, id);
    lemma_at_endpoint(s, addr);
    assert forall|k: int| 0 <= k < e.peers@.len() implies {
        &&& (#[trigger] e.peers@[k]).relay_id == s[k].relay_id
        &&& e.peers@[k].endpoint == s[k].endpoint
    } by {}
}

/// Our own relay's word that it does not know a peer sends that peer's traffic
/// to the relay that it publishes, if that is another one, until the peer is
/// seen on ours again or five minutes have passed.
pub proof fn a_peer_off_our_relay_is_sought_on_its_own(
    e: &mut Engine,
    id: RelayId,
    at: u64,
    elsewhere: bool,
    i: PeerIndex,
    relay: Option<RelayId>,
    seen: &mut Engine,
    back: Option<RelayId>,
    aged: &mut Engine,
    now: u64,
    kept: Option<RelayId>,
)
    requires
        call_ensures(Engine::relay_unreachable, (e, id, at), elsewhere),
        is_relayed_as(old(e).peers@, id, i as int),
        call_ensures(Engine::relay_for, (&*final(e), id), relay),
        *old(seen) == *final(e),
        call_ensures(Engine::seen_on_home_relay, (seen, id), ()),
        call_ensures(Engine::relay_for, (&*final(seen), id), back),
        *old(aged) == *final(e),
        call_ensures(Engine::expire_marks, (aged, now), ()),
        call_ensures(Engine::relay_for, (&*final(aged), id), kept),
    ensures
        elsewhere == (old(e).peers@[i as int].home_relay is Some
            && old(e).peers@[i as int].home_relay != old(e).home),
        relay == if elsewhere {
            old(e).peers@[i as int].home_relay
        } else {
            None
        },
        back is None,
        at > 0 ==> kept == if now - at < 300_000 {
            relay
        } else {
            None
        },
{
    let before = *old(e);
    let p = before.peers@[i as int];
    assert(before.peers@.len() == before.peers.len());
    lemma_found(before.peers@, id, arbitrary(), p.hint);
    let s = slots(before.peers@);
    lemma_by_relay_id(s, id);
    assert(s[i as int] == p@);
    let found = by_relay_id(s, id);
    assert(found == Some(i)) by {
        let k = found->0;
        assert(s[k as int] == before.peers@[k as int]@);
        if k < i {
            assert(s[i as int].relay_id != Some(id));
        } else if i < k {
            assert(before.peers@[k as int].relay_id != Some(id));
        }
    }
    lemma_ids_kept(before.peers@, final(e).peers@, id);
    lemma_ids_kept(final(e).peers@, final(seen).peers@, id);
    lemma_ids_kept(final(e).peers@, final(aged).peers@, id);
    assert(slots(final(e).peers@)[i as int] == final(e).peers@[i as int]@);
    assert(slots(final(seen).peers@)[i as int] == final(seen).peers@[i as int]@);
}

proof fn lemma_ids_kept(a: Seq<PeerSlot>, b: Seq<PeerSlot>, id: RelayId)
    requires
        a.len() == b.len(),
        forall|k: int|
            0 <= k < a.len() ==> (#[trigger] slots(a)[k]).relay_id == slots(b)[k].relay_id,
    ensures
        by_relay_id(slots(a), id) == by_relay_id(slots(b), id),
    decreases a.len(),
{
    let (s, t) = (slots(a), slots(b));
    if a.len() > 0 {
        assert(s[s.len() - 1].relay_id == t[t.len() - 1].relay_id);
        assert(slots(a.drop_last()) =~= s.drop_last());
        assert(slots(b.drop_last()) =~= t.drop_last());
        assert forall|k: int| 0 <= k < a.len() - 1 implies (#[trigger] slots(
            a.drop_last(),
        )[k]).relay_id == slots(b.drop_last())[k].relay_id by {
            assert(slots(a)[k].relay_id == slots(b)[k].relay_id);
        }
        lemma_ids_kept(a.drop_last(), b.drop_last(), id);
    }
}

/// Whether two lists of peers agree in everything but the endpoints and the
/// marks of being off our relay.
pub open spec fn same_but_reach(a: Seq<PeerSlot>, b: Seq<PeerSlot>) -> bool {
    &&& a.len() == b.len()
    &&& forall|k: int|
        0 <= k < a.len() ==> {
            &&& (#[trigger] a[k]).hint == b[k].hint
            &&& a[k].relay_id == b[k].relay_id
            &&& a[k].home_relay == b[k].home_relay
            &&& a[k].addresses@ == b[k].addresses@
            &&& a[k].flows@ == b[k].flows@
            &&& a[k].admissions@ == b[k].admissions@
            &&& a[k].psk == b[k].psk
        }
}

proof fn lemma_views(peers: Seq<PeerSlot>)
    ensures
        slots(peers).len() == peers.len(),
        forall|k: int|
            0 <= k < peers.len() ==> {
                &&& (#[trigger] peers[k]).hint == slots(peers)[k].hint
                &&& peers[k].endpoint == slots(peers)[k].endpoint
                &&& peers[k].relay_id == slots(peers)[k].relay_id
                &&& peers[k].home_relay == slots(peers)[k].home_relay
                &&& peers[k].addresses@ == slots(peers)[k].addresses
                &&& peers[k].flows@ == slots(peers)[k].flows
                &&& peers[k].admissions@ == slots(peers)[k].admissions
                &&& peers[k].off_home == slots(peers)[k].off_home
                &&& peers[k].psk == slots(peers)[k].psk
            },
{
    assert forall|k: int| 0 <= k < peers.len() implies #[trigger] peers[k]@ == slots(peers)[k] by {
    }
}

/// Marking a peer as off our relay, seeing it there, or letting marks lapse
/// changes nothing else, nor the mark of any other peer. A mark lapses when it
/// is five minutes old.
pub proof fn a_mark_is_all_that_changes(
    e: &mut Engine,
    id: RelayId,
    at: u64,
    elsewhere: bool,
    seen: &mut Engine,
    aged: &mut Engine,
    polled: &mut Engine,
    redial: Vec<bool>,
    k: int,
)
    requires
        call_ensures(Engine::relay_unreachable, (e, id, at), elsewhere),
        *old(seen) == *old(e),
        call_ensures(Engine::seen_on_home_relay, (seen, id), ()),
        *old(aged) == *old(e),
        call_ensures(Engine::expire_marks, (aged, at), ()),
        *old(polled) == *old(e),
        call_ensures(Engine::poll, (polled, at), redial),
        0 <= k < old(e).peers@.len(),
    ensures
        same_but_reach(old(e).peers@, final(e).peers@),
        same_but_reach(old(e).peers@, final(seen).peers@),
        same_but_reach(old(e).peers@, final(aged).peers@),
        same_but_reach(old(e).peers@, final(polled).peers@),
        final(e).peers@[k].endpoint == old(e).peers@[k].endpoint,
        final(seen).peers@[k].endpoint == old(e).peers@[k].endpoint,
        final(aged).peers@[k].endpoint == old(e).peers@[k].endpoint,
        final(polled).peers@[k].endpoint == old(e).peers@[k].endpoint,
        ({
            let p = old(e).peers@[k];
            let marked = is_relayed_as(old(e).peers@, id, k);
            let lapsed = p.off_home != 0 && at - p.off_home >= 300_000;
            &&& marked ==> final(e).peers@[k].off_home != 0 && (at > 0
                ==> final(e).peers@[k].off_home == at)
            &&& marked ==> final(seen).peers@[k].off_home == 0
            &&& !marked ==> final(e).peers@[k].off_home == p.off_home
            &&& !marked ==> final(seen).peers@[k].off_home == p.off_home
            &&& final(aged).peers@[k].off_home == if lapsed {
                0
            } else {
                p.off_home
            }
            &&& final(polled).peers@[k].off_home == final(aged).peers@[k].off_home
        }),
        final(e).stats == old(e).stats,
        final(seen).stats == old(e).stats,
        final(aged).stats == old(e).stats,
        final(polled).stats == old(e).stats,
        redial@.len() == old(e).peers@.len(),
{
    let before = *old(e);
    assert(before.peers@.len() == before.peers.len());
    lemma_found(before.peers@, id, arbitrary(), arbitrary());
    let s = slots(before.peers@);
    lemma_views(before.peers@);
    lemma_views(final(e).peers@);
    lemma_views(final(seen).peers@);
    if let Some(i) = by_relay_id(s, id) {
        assert(is_relayed_as(before.peers@, id, i as int));
        if is_relayed_as(before.peers@, id, k) && k != i {
            if k < i {
                assert(before.peers@[i as int].relay_id != Some(id));
            } else {
                assert(before.peers@[k].relay_id != Some(id));
            }
        }
    }
}

/// A peer is dialled again exactly if there is a way to it.
pub proof fn every_reachable_peer_is_dialled(
    e: Engine,
    r: Vec<bool>,
    i: PeerIndex,
    via: Option<Via>,
)
    requires
        call_ensures(Engine::connect_all, (&e,), r),
        i < e.peers@.len(),
        call_ensures(Engine::via, (&e, i), via),
    ensures
        r@.len() == e.peers@.len(),
        r@[i as int] == (via is Some),
{
}

/// A peer that was given an endpoint is reached there directly, until that
/// endpoint is taken away again; taking another one away does nothing.
pub proof fn an_endpoint_is_used_until_it_is_released(
    e: &mut Engine,
    peer: PeerIndex,
    addr: SocketAddr,
    set: bool,
    way: Option<Via>,
    later: &mut Engine,
    other: SocketAddr,
    released: bool,
    after: Option<SocketAddr>,
    k: int,
)
    requires
        call_ensures(Engine::set_endpoint, (e, peer, addr), set),
        call_ensures(Engine::via, (&*final(e), peer), way),
        *old(later) == *final(e),
        call_ensures(Engine::release_endpoint, (later, peer, other), released),
        call_ensures(Engine::endpoint, (&*final(later), peer), after),
        0 <= k < old(e).peers@.len(),
    ensures
        set == (peer < old(e).peers@.len()),
        set ==> way == Some(Via::Direct(addr)),
        released == (set && other == addr),
        set ==> after == if other == addr {
            None
        } else {
            Some(addr)
        },
        same_but_reach(old(e).peers@, final(e).peers@),
        same_but_reach(old(e).peers@, final(later).peers@),
        k != peer ==> final(e).peers@[k].endpoint == old(e).peers@[k].endpoint,
        k != peer ==> final(later).peers@[k].endpoint == old(e).peers@[k].endpoint,
        final(e).peers@[k].off_home == old(e).peers@[k].off_home,
        final(later).peers@[k].off_home == old(e).peers@[k].off_home,
        final(e).stats == old(e).stats && final(later).stats == old(e).stats,
{
    let before = *old(e);
    lemma_views(before.peers@);
    lemma_views(final(e).peers@);
    lemma_views(final(later).peers@);
}

/// The hint that each peer is named by.
pub open spec fn hints(peers: Seq<PeerSlot>) -> Seq<Bytes<32>> {
    peers.map_values(|p: PeerSlot| p.hint)
}

proof fn lemma_distinct(peers: Seq<PeerSlot>)
    requires
        peers.len() <= usize::MAX,
    ensures
        hints(peers).to_set().finite(),
        distinct_hints(slots(peers)) == hints(peers).to_set().len(),
    decreases peers.len(),
{
    let s = slots(peers);
    if peers.len() == 0 {
        assert(hints(peers).to_set() =~= Set::empty());
    } else {
        let init = peers.drop_last();
        lemma_distinct(init);
        assert(slots(init) =~= s.drop_last());
        let last = peers.last().hint;
        assert(s.last().hint == last);
        lemma_last_by_hint(slots(init), last);
        assert(hints(peers) =~= hints(init).push(last));
        assert(hints(peers).to_set() =~= hints(init).to_set().insert(last)) by {
            assert forall|h: Bytes<32>| hints(peers).contains(h) implies #[trigger] hints(
                init,
            ).to_set().insert(last).contains(h) by {
                let k = choose|k: int| 0 <= k < hints(peers).len() && hints(peers)[k] == h;
                if k < init.len() {
                    assert(hints(init)[k] == h);
                }
            }
            assert forall|h: Bytes<32>| #[trigger] hints(init).to_set().insert(last).contains(
                h,
            ) implies hints(peers).contains(h) by {
                if h == last {
                    assert(hints(peers)[init.len() as int] == h);
                } else {
                    let k = choose|k: int| 0 <= k < hints(init).len() && hints(init)[k] == h;
                    assert(hints(peers)[k] == h);
                }
            }
        }
        if by_hint(slots(init), last) is Some {
            let k = by_hint(slots(init), last)->0 as int;
            assert(hints(init)[k] == last);
            assert(hints(init).to_set().contains(last));
        } else if hints(init).to_set().contains(last) {
            let k = choose|k: int| 0 <= k < hints(init).len() && hints(init)[k] == last;
            assert(slots(init)[k].hint == last);
        }
    }
}

proof fn lemma_kept(
    previous: Seq<Slot>,
    entries: Seq<RosterEntry>,
    carried: Seq<Option<Kept>>,
    n: nat,
)
    requires
        n <= entries.len() == carried.len(),
        forall|i: int|
            0 <= i < n ==> ((#[trigger] carried[i]) is Some <==> by_hint(
                previous,
                entries[i].hint,
            ) is Some),
    ensures
        kept_count(previous, entries, n) == carried.take(n as int).filter(
            |k: Option<Kept>| k is Some,
        ).len(),
    decreases n,
{
    let p = |k: Option<Kept>| k is Some;
    reveal(Seq::filter);
    if n > 0 {
        lemma_kept(previous, entries, carried, (n - 1) as nat);
        assert(carried.take(n as int).drop_last() =~= carried.take(n - 1));
        assert(carried.take(n as int).last() == carried[n - 1]);
    }
}

/// A new roster takes the place of the old one. A peer that was there before,
/// which its hint tells, keeps its endpoint and its mark, and is set up anew if
/// its key or the epoch has changed; one that was not starts from the roster.
/// Everything else is the new roster's, no flow is carried over, and the counts
/// are those of the peers kept, added, and gone.
pub proof fn a_new_roster_takes_over(
    e: &mut Engine,
    roster: Roster,
    r: (Reconfigured, Vec<Option<Kept>>),
    i: int,
)
    requires
        call_ensures(Engine::reconfigure, (e, roster), r),
        0 <= i < roster.entries@.len(),
    ensures
        final(e).peers@.len() == roster.entries@.len(),
        r.1@.len() == roster.entries@.len(),
        ({
            let entry = roster.entries@[i];
            let p = final(e).peers@[i];
            let there = hints(old(e).peers@).contains(entry.hint);
            &&& p.hint == entry.hint
            &&& p.relay_id == entry.relay_id
            &&& p.addresses@ == entry.addresses@
            &&& p.psk == entry.psk
            &&& p.flows@.dom().is_empty() && p.admissions@.dom().is_empty()
            &&& p.home_relay == if entry.home_relay is Some && roster.relays@.contains(
                entry.home_relay->0,
            ) {
                entry.home_relay
            } else {
                None
            }
            &&& r.1@[i] is Some <==> there
            &&& r.1@[i] matches Some(kept) ==> {
                &&& is_named(old(e).peers@, entry.hint, kept.from as int)
                &&& kept.rearm == (old(e).peers@[kept.from as int].psk != entry.psk
                    || old(e).psk_epoch != roster.psk_epoch)
                &&& p.endpoint == old(e).peers@[kept.from as int].endpoint
                &&& p.off_home == old(e).peers@[kept.from as int].off_home
            }
            &&& r.1@[i] is None ==> p.endpoint == entry.endpoint && p.off_home == 0
        }),
        final(e).routes == roster.routes && final(e).filter == roster.filter && final(e).ssh
            == roster.ssh && final(e).relays == roster.relays && final(e).psk_epoch
            == roster.psk_epoch,
        final(e).home == old(e).home && final(e).stats == old(e).stats,
        r.0.kept == r.1@.filter(|k: Option<Kept>| k is Some).len(),
        r.0.added + r.0.kept == roster.entries@.len(),
        r.0.removed == if hints(old(e).peers@).to_set().len() >= r.0.kept {
            hints(old(e).peers@).to_set().len() - r.0.kept
        } else {
            0
        },
        r.0.epoch_rotated == (old(e).psk_epoch != roster.psk_epoch),
{
    let before = *old(e);
    let s = slots(before.peers@);
    assert(before.peers@.len() == before.peers.len());
    let entry = roster.entries@[i];
    lemma_found(before.peers@, arbitrary(), arbitrary(), entry.hint);
    lemma_last_by_hint(s, entry.hint);
    lemma_distinct(before.peers@);
    let p = final(e).peers@[i];
    assert(p@ == slot_for(entry, roster.relays@, s));
    assert(r.1@[i] == kept_as(entry, roster.psk_epoch, s, before.psk_epoch));
    if let Some(j) = by_hint(s, entry.hint) {
        assert(s[j as int] == before.peers@[j as int]@);
        assert(hints(before.peers@)[j as int] == entry.hint);
    } else if hints(before.peers@).contains(entry.hint) {
        let k = choose|k: int|
            0 <= k < hints(before.peers@).len() && hints(before.peers@)[k] == entry.hint;
        assert(s[k].hint == entry.hint);
    }
    assert forall|n: int| 0 <= n < roster.entries@.len() implies ((#[trigger] r.1@[n]) is Some
        <==> by_hint(s, roster.entries@[n].hint) is Some) by {
        assert(r.1@[n] == kept_as(roster.entries@[n], roster.psk_epoch, s, before.psk_epoch));
    }
    lemma_kept(s, roster.entries@, r.1@, roster.entries@.len());
    assert(r.1@.take(r.1@.len() as int) =~= r.1@);
    kept_never_exceeds_the_roster(s, roster.entries@, roster.entries@.len());
}

/// A fresh engine knows the roster's peers as the roster gives them, and has
/// counted nothing.
pub proof fn a_fresh_engine_is_its_roster(roster: Roster, e: Engine, i: int)
    requires
        call_ensures(Engine::new, (roster,), e),
        0 <= i < roster.entries@.len(),
    ensures
        e.peers@.len() == roster.entries@.len(),
        ({
            let entry = roster.entries@[i];
            let p = e.peers@[i];
            &&& p.hint == entry.hint
            &&& p.relay_id == entry.relay_id
            &&& p.endpoint == entry.endpoint
            &&& p.addresses@ == entry.addresses@
            &&& p.psk == entry.psk
            &&& p.off_home == 0
            &&& p.flows@.dom().is_empty() && p.admissions@.dom().is_empty()
            &&& p.home_relay == if entry.home_relay is Some && roster.relays@.contains(
                entry.home_relay->0,
            ) {
                entry.home_relay
            } else {
                None
            }
        }),
        e.routes == roster.routes && e.filter == roster.filter && e.ssh == roster.ssh && e.relays
            == roster.relays && e.psk_epoch == roster.psk_epoch,
        e.home is None,
        e.stats.unroutable == 0 && e.stats.source_violations == 0 && e.stats.mac_failures == 0
            && e.stats.tx_packets == 0 && e.stats.rx_packets == 0 && e.stats.tx_dropped_no_session
            == 0 && e.stats.decrypt_failures == 0 && e.stats.malformed == 0
            && e.stats.acl_denied_in == 0 && e.stats.acl_denied_out == 0
            && e.stats.acl_unclassifiable == 0,
{
    assert(e.peers@[i]@ == slot_for(roster.entries@[i], roster.relays@, seq![]));
}

/// A handshake is answered again where it repeats one from the peer at that
/// address. Otherwise the peer that it names is adopted and is reached from then
/// on where the handshake came from; one that names nobody is discarded and
/// changes nothing.
pub proof fn a_handshake_moves_the_peer_that_it_names(
    e: &mut Engine,
    from: SocketAddr,
    repeated: bool,
    resolved: Option<Bytes<32>>,
    r: Answer,
    there: Option<PeerIndex>,
    way: Option<Via>,
    k: int,
)
    requires
        call_ensures(Engine::accept_handshake, (e, from, repeated, resolved), r),
        call_ensures(Engine::peer_at, (&*old(e), from), there),
        r matches Answer::Adopt(i) ==> call_ensures(Engine::via, (&*final(e), i), way),
        0 <= k < old(e).peers@.len(),
    ensures
        r matches Answer::Repeat(i) ==> repeated && there == Some(i),
        repeated && there is Some ==> r == Answer::Repeat(there->0),
        r matches Answer::Adopt(i) ==> {
            &&& resolved is Some && is_named(old(e).peers@, resolved->0, i as int)
            &&& way == Some(Via::Direct(from))
        },
        r is Discard <==> !(repeated && there is Some) && (resolved is Some ==> !hints(
            old(e).peers@,
        ).contains(resolved->0)),
        same_but_reach(old(e).peers@, final(e).peers@),
        final(e).peers@[k].off_home == old(e).peers@[k].off_home,
        r != Answer::Adopt(k as usize) ==> final(e).peers@[k].endpoint == old(e).peers@[k].endpoint,
        final(e).stats == old(e).stats,
{
    let before = *old(e);
    assert(before.peers@.len() == before.peers.len());
    lemma_views(before.peers@);
    lemma_views(final(e).peers@);
    if let Some(hint) = resolved {
        lemma_found(before.peers@, arbitrary(), from, hint);
        lemma_last_by_hint(slots(before.peers@), hint);
        lemma_hints(before.peers@, hint);
    }
}

proof fn lemma_hints(peers: Seq<PeerSlot>, hint: Bytes<32>)
    requires
        peers.len() <= usize::MAX,
    ensures
        hints(peers).contains(hint) <==> by_hint(slots(peers), hint) is Some,
{
    lemma_last_by_hint(slots(peers), hint);
    lemma_views(peers);
    if let Some(i) = by_hint(slots(peers), hint) {
        assert(peers[i as int].hint == hint);
        assert(hints(peers)[i as int] == hint);
    }
    if hints(peers).contains(hint) {
        let k = choose|k: int| 0 <= k < hints(peers).len() && hints(peers)[k] == hint;
        assert(peers[k].hint == hint);
    }
}

/// Through a relay a handshake is taken only from the peer that the relay says
/// it is from.
pub proof fn a_relayed_handshake_is_from_its_sender(
    e: Engine,
    expected: PeerIndex,
    repeated: bool,
    resolved: Option<Bytes<32>>,
    r: Answer,
)
    requires
        call_ensures(Engine::accept_relayed_handshake, (&e, expected, repeated, resolved), r),
    ensures
        r == Answer::Repeat(expected) <==> repeated && expected < e.peers@.len(),
        r == Answer::Adopt(expected) <==> !(repeated && expected < e.peers@.len()) && resolved is Some
            && is_named(e.peers@, resolved->0, expected as int),
        r == Answer::Repeat(expected) || r == Answer::Adopt(expected) || r is Discard,
{
    assert(e.peers@.len() == e.peers.len());
    if let Some(hint) = resolved {
        lemma_found(e.peers@, arbitrary(), arbitrary(), hint);
        if is_named(e.peers@, hint, expected as int) {
            if let Some(i) = by_hint(slots(e.peers@), hint) {
                if i < expected {
                    assert(e.peers@[expected as int].hint != hint);
                } else if expected < i {
                    assert(e.peers@[i as int].hint != hint);
                }
            }
        }
    }
}

/// A message belongs to the peer that it came from, by the address it was sent
/// from or by the relay's word. A handshake is taken from anyone who sends
/// directly; everything else only from a peer, data apart from the rest. The
/// session of a peer is numbered after the peer.
pub proof fn a_message_belongs_to_its_sender(
    e: Engine,
    message: &[u8],
    from: SocketAddr,
    direct: Attribution,
    there: Option<PeerIndex>,
    source: RelayId,
    relayed: Option<Attribution>,
    sender: Option<PeerIndex>,
)
    requires
        call_ensures(Engine::inbound, (&e, message, from), direct),
        call_ensures(Engine::peer_at, (&e, from), there),
        call_ensures(Engine::inbound_from_relay, (&e, source, message), relayed),
        call_ensures(Engine::peer_by_relay_id, (&e, source), sender),
    ensures
        direct is Handshake <==> message@.len() > 0 && message@[0] == 1,
        direct matches Attribution::Handshake { known, index } ==> {
            &&& known == there
            &&& there is None ==> index == 0
            &&& there matches Some(i) ==> (i < u32::MAX ==> index == i + 1)
        },
        direct matches Attribution::Transport(i) ==> there == Some(i),
        direct matches Attribution::Session(i) ==> there == Some(i),
        direct is Transport <==> there is Some && message@.len() > 0 && message@[0] == 4,
        direct is Nobody <==> there is None && !(message@.len() > 0 && message@[0] == 1),
        relayed is Some <==> sender is Some,
        relayed matches Some(Attribution::Handshake { known, index }) ==> known == sender && (
        sender->0 < u32::MAX ==> index == sender->0 + 1),
        relayed matches Some(a) ==> {
            &&& a is Handshake <==> message@.len() > 0 && message@[0] == 1
            &&& a is Transport <==> message@.len() > 0 && message@[0] == 4
            &&& a matches Attribution::Transport(i) ==> sender == Some(i)
            &&& a matches Attribution::Session(i) ==> sender == Some(i)
            &&& a !is Nobody
        },
{
}

/// Each peer's session has a number of its own, and none is zero: that is for
/// those who are no peer yet.
pub proof fn sessions_are_told_apart(a: PeerIndex, x: u32, b: PeerIndex, y: u32, nobody: u32)
    requires
        a < u32::MAX && b < u32::MAX,
        call_ensures(local_index, (Some(a),), x),
        call_ensures(local_index, (Some(b),), y),
        call_ensures(local_index, (None::<PeerIndex>,), nobody),
    ensures
        x == y <==> a == b,
        x == a + 1,
        nobody == 0 && x != 0,
{
}

/// A relayed stream is named by the first seventeen bytes of its sender's
/// identity, after a mark that no address has.
pub proof fn a_relayed_stream_is_named_by_its_sender(
    a: &RelayId,
    x: Bytes<18>,
    b: &RelayId,
    y: Bytes<18>,
)
    requires
        call_ensures(relay_source_key, (a,), x),
        call_ensures(relay_source_key, (b,), y),
    ensures
        x.0@[0] == 0xff,
        forall|i: int| 0 <= i < 17 ==> #[trigger] x.0@[i + 1] == a.0@[i],
        x.0@ == y.0@ <==> a.0@.take(17) == b.0@.take(17),
{
    relayed_streams_are_kept_apart(*a, *b);
}

/// The message type that a datagram claims is tried first, and then every type
/// that a datagram can have.
pub proof fn every_message_type_is_tried(payload: &[u8], types: Vec<u8>)
    requires
        call_ensures(mac_types, (payload,), types),
    ensures
        types@.len() == 4,
        payload@.len() > 0 ==> types@[0] == payload@[0],
        payload@.len() == 0 ==> types@[0] == 0,
        types@[1] == 1 && types@[2] == 2 && types@[3] == 4,
{
}

/// A sealed packet is sent whole: every fragment, in order, on the way that was
/// chosen, and counted once. Without a session nothing is sent, and that is
/// counted.
pub proof fn every_fragment_is_sent(
    e: &mut Engine,
    via: Via,
    fragments: Option<Vec<Vec<u8>>>,
    out: Output,
    i: int,
    empty: bool,
)
    requires
        call_ensures(Engine::sealed, (e, via, fragments), out),
        call_ensures(Output::is_empty, (&out,), empty),
    ensures
        out.packets@.len() == 0,
        final(e).peers == old(e).peers,
        empty == (out.datagrams@.len() == 0),
        fragments matches Some(all) ==> {
            &&& out.datagrams@.len() == all@.len()
            &&& 0 <= i < all@.len() ==> out.datagrams@[i].0@ == all@[i]@ && out.datagrams@[i].1
                == via
            &&& one_more(old(e).stats.tx_packets, final(e).stats.tx_packets)
            &&& final(e).stats == (Stats {
                tx_packets: final(e).stats.tx_packets,
                ..old(e).stats
            })
        },
        fragments is None ==> {
            &&& out.datagrams@.len() == 0
            &&& one_more(
                old(e).stats.tx_dropped_no_session,
                final(e).stats.tx_dropped_no_session,
            )
            &&& final(e).stats == (Stats {
                tx_dropped_no_session: final(e).stats.tx_dropped_no_session,
                ..old(e).stats
            })
        },
{
    assert(out@.packets.len() == out.packets@.len());
    assert(out@.datagrams.len() == out.datagrams@.len());
    if let Some(all) = fragments {
        if 0 <= i < all@.len() {
            assert(out@.datagrams[i] == (out.datagrams@[i].0@, out.datagrams@[i].1));
            assert(out@.datagrams[i] == all@.map_values(|f: Vec<u8>| (f@, via))[i]);
        }
    }
}

/// A datagram is taken only if it could be parsed and is authentic, and one that
/// is not is counted once, under the first thing that is wrong with it. What a
/// relay delivers for a stranger is neither taken nor counted.
pub proof fn a_datagram_is_taken_if_it_is_authentic(
    e: &mut Engine,
    parsed: bool,
    authentic: bool,
    r: bool,
    relayed: &mut Engine,
    source: RelayId,
    q: Option<PeerIndex>,
    sender: Option<PeerIndex>,
)
    requires
        call_ensures(Engine::received, (e, parsed, authentic), r),
        *old(relayed) == *old(e),
        call_ensures(Engine::received_from_relay, (relayed, source, parsed, authentic), q),
        call_ensures(Engine::peer_by_relay_id, (&*old(e), source), sender),
    ensures
        r == (parsed && authentic),
        r ==> final(e).stats == old(e).stats,
        !parsed ==> {
            &&& one_more(old(e).stats.malformed, final(e).stats.malformed)
            &&& final(e).stats == (Stats { malformed: final(e).stats.malformed, ..old(e).stats })
        },
        parsed && !authentic ==> {
            &&& one_more(old(e).stats.mac_failures, final(e).stats.mac_failures)
            &&& final(e).stats == (Stats {
                mac_failures: final(e).stats.mac_failures,
                ..old(e).stats
            })
        },
        q == if r {
            sender
        } else {
            None
        },
        sender is None ==> final(relayed).stats == old(e).stats,
        sender is Some ==> final(relayed).stats == final(e).stats,
        final(e).peers == old(e).peers && final(relayed).peers == old(e).peers,
{
}

/// A message that does not decrypt is counted, and changes nothing else.
pub proof fn a_failed_decryption_is_counted(e: &mut Engine)
    requires
        call_ensures(Engine::decrypt_failed, (e,), ()),
    ensures
        one_more(old(e).stats.decrypt_failures, final(e).stats.decrypt_failures),
        final(e).stats == (Stats {
            decrypt_failures: final(e).stats.decrypt_failures,
            ..old(e).stats
        }),
        final(e).peers == old(e).peers,
{
}

/// The next handshake with a peer is made with the key that the roster gives the
/// peer, in the roster's epoch.
pub proof fn a_handshake_uses_the_rosters_key(
    e: &mut Engine,
    roster: Roster,
    r: (Reconfigured, Vec<Option<Kept>>),
    i: PeerIndex,
    key: Option<(Bytes<32>, u32)>,
)
    requires
        call_ensures(Engine::reconfigure, (e, roster), r),
        call_ensures(Engine::handshake_psk, (&*final(e), i), key),
    ensures
        i < roster.entries@.len() ==> key == Some(
            (roster.entries@[i as int].psk, roster.psk_epoch),
        ),
        i >= roster.entries@.len() ==> key is None,
{
    if i < roster.entries@.len() {
        assert(final(e).peers@[i as int]@ == slot_for(
            roster.entries@[i as int],
            roster.relays@,
            slots(old(e).peers@),
        ));
    }
}

/// The home relay is the one that was set, and setting it changes nothing else.
/// A relay is found where it first stands in the list.
pub proof fn relays_are_kept_and_found(
    e: &mut Engine,
    home: Option<RelayId>,
    got: Option<RelayId>,
    id: RelayId,
    at: Option<usize>,
    i: usize,
    stats: Stats,
)
    requires
        call_ensures(Engine::set_home_relay, (e, home), ()),
        call_ensures(Engine::home_relay, (&*final(e),), got),
        call_ensures(Engine::relay, (&*final(e), id), at),
        call_ensures(Engine::stats, (&*final(e),), stats),
    ensures
        got == home,
        final(e).peers == old(e).peers && final(e).relays == old(e).relays && final(e).routes
            == old(e).routes && final(e).filter == old(e).filter && final(e).ssh == old(e).ssh
            && final(e).psk_epoch == old(e).psk_epoch,
        stats == old(e).stats,
        at == Some(i) ==> i < old(e).relays@.len() && old(e).relays@[i as int] == id,
        at is None <==> !old(e).relays@.contains(id),
{
    if let Some(j) = at {
        assert(old(e).relays@[j as int] == id);
    }
}

/// What is reported of a peer is what is known of it: its name and ranges from
/// the configuration, the first eight bytes of its hint in hexadecimal, and how
/// it is reached.
pub proof fn a_peers_status_is_its_own(
    e: Engine,
    i: PeerIndex,
    peer: &crate::config::Peer,
    established: bool,
    rekeying: bool,
    s: PeerStatus,
    t: Transport,
    n: int,
    range: String,
    short: &[u8],
    hint: String,
)
    requires
        i < e.peers@.len(),
        call_ensures(Engine::status, (&e, i, peer, established, rekeying), s),
        call_ensures(Engine::transport, (&e, i), t),
        0 <= n < peer.allowed_ips@.len(),
        call_ensures(Prefix::to_text, (&peer.allowed_ips@[n],), range),
        short@.len() == 8,
        forall|k: int| 0 <= k < 8 ==> #[trigger] short@[k] == e.peers@[i as int].hint.0@[k],
        call_ensures(encode_hex, (short,), hint),
    ensures
        s.name@ == peer.name@,
        s.hint@ == hint@,
        s.endpoint == e.peers@[i as int].endpoint,
        s.established == established && s.rekeying == rekeying,
        s.allowed_ips@.len() == peer.allowed_ips@.len(),
        s.allowed_ips@[n]@ == range@,
        s.psk_is_fallback == peer.psk_is_fallback,
        s.transport == t,
{
    assert(texts(s.allowed_ips@).len() == s.allowed_ips@.len());
    assert(texts(s.allowed_ips@)[n] == s.allowed_ips@[n]@);
    assert(short@ =~= e.peers@[i as int].hint.0@.take(8));
}

/// The datagrams that a session asks to have sent, on one way.
pub open spec fn datagrams_of(actions: Seq<Action>, via: Via) -> Seq<(Seq<u8>, Via)>
    decreases actions.len(),
{
    if actions.len() == 0 {
        seq![]
    } else {
        let before = datagrams_of(actions.drop_last(), via);
        match actions.last() {
            Action::Send(datagram) => before.push((datagram@, via)),
            _ => before,
        }
    }
}

/// Whether one of a session's actions hands over a packet that starts with these
/// bytes and whose source routes to `peer`.
pub open spec fn is_handed_over(
    actions: Seq<Action>,
    routes: AllowedIps,
    peer: PeerIndex,
    bytes: Seq<u8>,
) -> bool {
    exists|k: int|
        0 <= k < actions.len() && (#[trigger] actions[k] matches Action::Deliver { packet, raw }
            && packet.addresses is Some && owner(routes.ranges@, packet.addresses->0.source)
            == Some(peer) && bytes.len() <= raw@.len() && bytes == raw@.take(bytes.len() as int))
}

proof fn lemma_applied(
    before: Engine,
    after: Engine,
    peer: PeerIndex,
    actions: Seq<Action>,
    via: Option<Via>,
    now: u64,
    out: Sent,
    sent: Sent,
)
    requires
        applied(before, after, peer, actions, via, now, out, sent),
    ensures
        after.settings_of(before),
        sent.datagrams == match via {
            Some(via) => out.datagrams + datagrams_of(actions, via),
            None => out.datagrams,
        },
        out.packets.len() <= sent.packets.len(),
        sent.packets.take(out.packets.len() as int) == out.packets,
        forall|i: int|
            out.packets.len() <= i < sent.packets.len() ==> is_handed_over(
                actions,
                before.routes,
                peer,
                #[trigger] sent.packets[i],
            ),
    decreases actions.len(),
{
    if actions.len() > 0 {
        let init = actions.drop_last();
        let (mid, so_far) = choose|mid: Engine, so_far: Sent|
            {
                &&& applied(before, mid, peer, init, via, now, out, so_far)
                &&& #[trigger] acted(mid, after, peer, actions.last(), via, now, so_far, sent)
            };
        lemma_applied(before, mid, peer, init, via, now, out, so_far);
        assert(acted(mid, after, peer, actions.last(), via, now, so_far, sent));
        assert forall|i: int| out.packets.len() <= i < so_far.packets.len() implies is_handed_over(
            actions,
            before.routes,
            peer,
            #[trigger] so_far.packets[i],
        ) by {
            let bytes = so_far.packets[i];
            assert(is_handed_over(init, before.routes, peer, bytes));
            let k = choose|k: int|
                0 <= k < init.len() && (#[trigger] init[k] matches Action::Deliver { packet, raw }
                    && packet.addresses is Some && owner(
                    before.routes.ranges@,
                    packet.addresses->0.source,
                ) == Some(peer) && bytes.len() <= raw@.len() && bytes == raw@.take(
                    bytes.len() as int,
                ));
            assert(actions[k] == init[k]);
        }
        match actions.last() {
            Action::Send(_) => {
                assert(sent.packets == so_far.packets);
            },
            Action::Deliver { packet, raw } => {
                let r = choose|r: Option<Seq<u8>>|
                    {
                        &&& #[trigger] mid.delivered(after, peer, packet, raw@, now, r)
                        &&& sent == match r {
                            Some(bytes) => Sent { packets: so_far.packets.push(bytes), ..so_far },
                            None => so_far,
                        }
                    };
                assert(mid.delivered(after, peer, packet, raw@, now, r));
                if let Some(bytes) = r {
                    let n = so_far.packets.len() as int;
                    assert(sent.packets[n] == bytes);
                    assert(actions[actions.len() - 1] == actions.last());
                    assert(is_handed_over(actions, before.routes, peer, bytes));
                    assert forall|i: int| out.packets.len() <= i < sent.packets.len() implies
                        is_handed_over(actions, before.routes, peer, #[trigger] sent.packets[i])
                    by {
                        if i < n {
                            assert(sent.packets[i] == so_far.packets[i]);
                        }
                    }
                    assert(sent.packets.take(out.packets.len() as int) =~= so_far.packets.take(
                        out.packets.len() as int,
                    ));
                }
            },
            Action::Established | Action::Closed => {},
        }
        if let Some(via) = via {
            assert(sent.datagrams =~= out.datagrams + datagrams_of(actions, via));
        }
    } else {
        assert(sent.packets.take(out.packets.len() as int) =~= out.packets);
        if let Some(via) = via {
            assert(sent.datagrams =~= out.datagrams + datagrams_of(actions, via));
        }
    }
}

/// What a session asks for is done: each datagram is sent, in order, on the way
/// to the peer, and to nobody if there is no way. Every packet that reaches the
/// host was handed over by the session, and its source routes to the peer. What
/// was to be sent or delivered before stays.
pub proof fn a_sessions_actions_are_carried_out(
    e: &mut Engine,
    peer: PeerIndex,
    actions: &Vec<Action>,
    now: u64,
    out: &mut Output,
    way: Option<Via>,
)
    requires
        call_ensures(Engine::apply, (e, peer, actions, now, out), ()),
        call_ensures(Engine::via, (&*old(e), peer), way),
    ensures
        final(out)@.datagrams == match way {
            Some(via) => old(out)@.datagrams + datagrams_of(actions@, via),
            None => old(out)@.datagrams,
        },
        final(out)@.packets.len() >= old(out)@.packets.len(),
        final(out)@.packets.take(old(out)@.packets.len() as int) == old(out)@.packets,
        forall|i: int|
            old(out)@.packets.len() <= i < final(out)@.packets.len() ==> is_handed_over(
                actions@,
                old(e).routes,
                peer,
                #[trigger] final(out)@.packets[i],
            ),
        final(e).routes == old(e).routes && final(e).filter == old(e).filter && final(e).home
            == old(e).home,
{
    lemma_applied(*old(e), *final(e), peer, actions@, way, now, old(out)@, final(out)@);
}

/// One packet that a session hands over is treated as the packet alone would be.
pub proof fn a_delivery_reaches_the_host(
    e: &mut Engine,
    peer: PeerIndex,
    actions: &Vec<Action>,
    now: u64,
    out: &mut Output,
    alone: &mut Engine,
    packet: &Packet,
    raw: &[u8],
    r: Option<Vec<u8>>,
)
    requires
        call_ensures(Engine::apply, (e, peer, actions, now, out), ()),
        actions@.len() == 1,
        actions@[0] matches Action::Deliver { packet: p, raw: b } && p == *packet && b@ == raw@,
        *old(alone) == *old(e),
        call_ensures(Engine::deliver_to_host, (alone, peer, packet, raw, now), r),
    ensures
        final(out)@.packets == match r {
            Some(bytes) => old(out)@.packets.push(bytes@),
            None => old(out)@.packets,
        },
        final(e).stats == final(alone).stats,
{
    let init = actions@.drop_last();
    let (mid, so_far) = choose|mid: Engine, so_far: Sent|
        {
            &&& applied(*old(e), mid, peer, init, old(e).way(peer), now, old(out)@, so_far)
            &&& #[trigger] acted(
                mid,
                *final(e),
                peer,
                actions@.last(),
                old(e).way(peer),
                now,
                so_far,
                final(out)@,
            )
        };
    assert(applied(*old(e), mid, peer, init, old(e).way(peer), now, old(out)@, so_far));
    assert(mid == *old(e) && so_far == old(out)@);
}

/// A roster's entry is the peer as it is configured, under its hint and its name
/// at the relays.
pub proof fn an_entry_is_the_configured_peer(
    peer: &crate::config::Peer,
    hint: Bytes<32>,
    id: Option<RelayId>,
    e: RosterEntry,
)
    requires
        call_ensures(RosterEntry::of, (peer, hint, id), e),
    ensures
        e.hint == hint && e.relay_id == id,
        e.endpoint == peer.endpoint && e.home_relay == peer.home_relay && e.psk == peer.psk,
        e.addresses@ == peer.allowed_ips@,
{
}

/// An address belongs to the peer that it routes to; a transport goes by its
/// name; and what has nothing to send or deliver is empty.
pub proof fn an_address_belongs_to_the_peer_it_routes_to(
    e: Engine,
    ip: IpAddr,
    r: Option<PeerIndex>,
    routed: Option<PeerIndex>,
    direct: String,
    relay: String,
    none: String,
    o: Output,
    empty: bool,
    fresh: Output,
)
    requires
        call_ensures(Engine::peer_for, (&e, ip), r),
        call_ensures(AllowedIps::route, (&e.routes, ip), routed),
        call_ensures(Transport::to_text, (Transport::Direct,), direct),
        call_ensures(Transport::to_text, (Transport::Relay,), relay),
        call_ensures(Transport::to_text, (Transport::Unreachable,), none),
        call_ensures(Output::is_empty, (&o,), empty),
        call_ensures(Output::default, (), fresh),
    ensures
        r == routed,
        direct@ == "direct"@ && relay@ == "relay"@ && none@ == "none"@,
        empty <==> o.datagrams@.len() == 0 && o.packets@.len() == 0,
        fresh.datagrams@.len() == 0 && fresh.packets@.len() == 0,
{
    assert(o@.datagrams.len() == o.datagrams@.len() && o@.packets.len() == o.packets@.len());
    assert(fresh@.datagrams.len() == fresh.datagrams@.len() && fresh@.packets.len()
        == fresh.packets@.len());
}

/// A connection that the SSH gate let in is remembered for two minutes, both
/// ways, and is refreshed when it is used; one that it refused is not, and
/// nothing else changes what is remembered.
pub proof fn a_gated_connection_is_remembered(
    e: &mut Engine,
    dir: Direction,
    peer: PeerIndex,
    packet: &Packet,
    at: u64,
    r: bool,
    v: Verdict,
    later: &mut SshAdmissions,
    way: Direction,
    p: &Packet,
    now: u64,
    admitted: bool,
    before: &mut SshAdmissions,
    earlier: bool,
)
    requires
        peer < old(e).peers@.len(),
        call_ensures(Engine::permit, (e, dir, peer, packet, at), r),
        match dir {
            Direction::In => call_ensures(
                PacketFilter::ingress,
                (&old(e).filter, peer, packet),
                v,
            ),
            Direction::Out => call_ensures(
                PacketFilter::egress,
                (&old(e).filter, peer, packet, &old(e).peers@[peer as int].addresses),
                v,
            ),
        },
        *old(later) == final(e).peers@[peer as int].admissions,
        call_ensures(SshAdmissions::is_admitted, (later, way, p, now), admitted),
        *old(before) == old(e).peers@[peer as int].admissions,
        call_ensures(SshAdmissions::is_admitted, (before, way, p, now), earlier),
    ensures
        ({
            let gated = dir == Direction::In && packet.ports is Some && packet.ports->0.protocol
                == 6 && packet.ports->0.destination == 22 && old(e).ssh.0 is Some && v is Permit;
            let same = crate::flow::one_conversation(dir, *packet, way, *p);
            &&& gated && r && same ==> admitted == (now - at <= 120_000)
            &&& gated && !r && same ==> !admitted
            &&& admitted && !same ==> earlier
            &&& !gated ==> admitted == earlier
        }),
{
    let a = *old(e);
    let b = *final(e);
    assert(b.slot(peer) == b.peers@[peer as int]@);
    assert(a.slot(peer) == a.peers@[peer as int]@);
    let x = a.slot(peer).admissions;
    let y = b.slot(peer).admissions;
    if let (Some(key), Some(other)) = (flow_key(dir, *packet), flow_key(way, *p)) {
        let mid = touched(x, key, at);
        if key != other && admitted && put(mid, y, key, at) {
            crate::flow::recording_opens_one_flow(mid, y, key, other, at, now);
        }
    }
}

proof fn lemma_open_after(
    before: Engine,
    after: Engine,
    dir: Direction,
    peer: PeerIndex,
    packet: Packet,
    at: u64,
    now: u64,
    way: Direction,
    back: Packet,
)
    requires
        peer < before.peers@.len(),
        before.ruled(after, dir, peer, packet, at),
        passes(before.ruling(dir, peer, packet, at)),
        crate::flow::one_conversation(dir, packet, way, back),
        now - at <= 120_000,
    ensures
        peer < after.peers@.len(),
        held(after.slot(peer).flows, way, back, now),
        after.slot(peer).addresses == before.slot(peer).addresses,
{
    assert(flow_key(dir, packet) == flow_key(way, back));
}

/// A packet that goes out to a peer opens its conversation: for two minutes the
/// peer's replies come in, though no rule lets them in. Nobody's endpoint changes
/// by it, and no other peer's flows.
pub proof fn a_packet_that_goes_out_opens_its_reply(
    e: &mut Engine,
    packet: &Packet,
    at: u64,
    peer: PeerIndex,
    via: Via,
    later: &mut Engine,
    back: &Packet,
    now: u64,
    r: bool,
    v: Verdict,
    i: int,
)
    requires
        call_ensures(Engine::outbound, (e, packet, at), Some((peer, via))),
        *old(later) == *final(e),
        call_ensures(Engine::permit, (later, Direction::In, peer, back, now), r),
        call_ensures(PacketFilter::ingress, (&old(e).filter, peer, back), v),
        crate::flow::one_conversation(Direction::Out, *packet, Direction::In, *back),
        now - at <= 120_000,
        0 <= i < old(e).peers@.len(),
    ensures
        v is Denied ==> r,
        final(e).peers@.len() == old(e).peers@.len(),
        final(e).peers@[i].endpoint == old(e).peers@[i].endpoint,
        final(e).peers@[i].off_home == old(e).peers@[i].off_home,
        final(e).peers@[i].psk == old(e).peers@[i].psk,
        i != peer ==> final(e).peers@[i].flows@ == old(e).peers@[i].flows@,
{
    let a = *old(e);
    let b = *final(e);
    assert(peer < a.peers@.len());
    lemma_open_after(a, b, Direction::Out, peer, *packet, at, now, Direction::In, *back);
    if i == peer {
        assert(b.slot(peer) == b.peers@[i]@);
        assert(a.slot(peer) == a.peers@[i]@);
    } else {
        assert(b.peers@[i]@ == a.peers@[i]@);
    }
}

/// A packet that reached the host opens its conversation as well: for two minutes
/// the host's answers go out to the peer, though no rule lets them out.
pub proof fn a_packet_that_came_in_opens_its_reply(
    e: &mut Engine,
    peer: PeerIndex,
    packet: &Packet,
    raw: &[u8],
    at: u64,
    bytes: Vec<u8>,
    later: &mut Engine,
    back: &Packet,
    now: u64,
    r: bool,
    v: Verdict,
    i: int,
)
    requires
        peer < old(e).peers@.len(),
        call_ensures(Engine::deliver_to_host, (e, peer, packet, raw, at), Some(bytes)),
        *old(later) == *final(e),
        call_ensures(Engine::permit, (later, Direction::Out, peer, back, now), r),
        call_ensures(
            PacketFilter::egress,
            (&old(e).filter, peer, back, &old(e).peers@[peer as int].addresses),
            v,
        ),
        crate::flow::one_conversation(Direction::In, *packet, Direction::Out, *back),
        now - at <= 120_000,
        0 <= i < old(e).peers@.len(),
    ensures
        v is Denied ==> r,
        final(e).peers@.len() == old(e).peers@.len(),
        final(e).peers@[i].endpoint == old(e).peers@[i].endpoint,
        final(e).peers@[i].psk == old(e).peers@[i].psk,
        i != peer ==> final(e).peers@[i].flows@ == old(e).peers@[i].flows@,
{
    let a = *old(e);
    let b = *final(e);
    lemma_open_after(a, b, Direction::In, peer, *packet, at, now, Direction::Out, *back);
    assert(a.slot(peer).addresses == a.peers@[peer as int].addresses@);
    if i == peer {
        assert(b.slot(peer) == b.peers@[i]@);
        assert(a.slot(peer) == a.peers@[i]@);
    } else {
        assert(b.peers@[i]@ == a.peers@[i]@);
    }
}

} // verus!

//! Path discovery, driven by a small probe schedule and datagram form.

use karstd::addr::{IpAddr, SocketAddr};
use karstd::bytes::Bytes;
use karstd::candidates::MAX_CANDIDATES;
use karstd::disco::{
    confirmation, instruction, relayed_candidates, search_targets, Action, Confirmation, Datagram, Disco, Header,
    Instruction, Key, Limits, Lookup, Message, PathChange, PathKind, Request, RosterPeer, Round,
    Scheduled, Tag, Tick, TxId, Verdict, REFLECTORS_MAX,
};

const OUR_ID: &[u8] = b"our-node-id-32-bytes-long-xxxxxx";
const THEIR_ID: &[u8] = b"their-node-id-32-bytes-long-xxxx";
const MAGIC: [u8; 4] = [0x41, 0x56, 0x45, 0x4e];
const ROUND_INTERVAL_MS: u64 = 1_000;
const REFLECT_INTERVAL_MS: u64 = 25_000;
const PATH_STALE_MS: u64 = 45_000;

type PairKey = [u8; 32];

fn addr(a: u8) -> SocketAddr {
    SocketAddr::new(IpAddr::v4(10, 0, 0, a), 51820)
}

fn ip(a: u8) -> IpAddr {
    IpAddr::v4(198, 51, 100, a)
}

fn id(n: u8) -> TxId {
    Bytes([n; 12])
}

// ── a datagram form ────────────────────────────────────────────────────────

fn digest(parts: &[&[u8]]) -> [u8; 8] {
    let mut state: u64 = 0xcbf2_9ce4_8422_2325;
    for part in parts {
        for b in *part {
            state = (state ^ u64::from(*b)).wrapping_mul(0x0000_0100_0000_01b3);
        }
        state = (state ^ 0xff).wrapping_mul(0x0000_0100_0000_01b3);
    }
    state.to_be_bytes()
}

fn tag(key: &PairKey, sender: &[u8], epoch: u32) -> Tag {
    Bytes(digest(&[key, sender, &epoch.to_be_bytes()]))
}

fn reflect_tag(key: &PairKey) -> Tag {
    Bytes(digest(&[key, b"reflect"]))
}

fn put_addr(out: &mut Vec<u8>, a: SocketAddr) {
    match a.ip {
        IpAddr::V4(bits) => out.extend_from_slice(&bits.to_be_bytes()),
        IpAddr::V6(_) => panic!("the fixtures are IPv4"),
    }
    out.extend_from_slice(&a.port.to_be_bytes());
}

fn take_addr(bytes: &[u8]) -> SocketAddr {
    let port = u16::from_be_bytes([bytes[4], bytes[5]]);
    SocketAddr::new(IpAddr::v4(bytes[0], bytes[1], bytes[2], bytes[3]), port)
}

/// Magic, key space, epoch, tag, authenticator, kind, body.
fn seal(message: &Message, key: &PairKey, tag: &Tag, epoch: u32) -> Vec<u8> {
    let mut body = Vec::new();
    let reflect = match message {
        Message::Ping { tx } => {
            body.push(1);
            body.extend_from_slice(&tx.0);
            0
        }
        Message::Pong { tx, observed } => {
            body.push(2);
            body.extend_from_slice(&tx.0);
            put_addr(&mut body, *observed);
            0
        }
        Message::CallMeMaybe { candidates } => {
            body.push(3);
            for c in candidates {
                put_addr(&mut body, *c);
            }
            0
        }
        Message::Reflect { tx } => {
            body.push(4);
            body.extend_from_slice(&tx.0);
            1
        }
        Message::Reflection { tx, observed } => {
            body.push(5);
            body.extend_from_slice(&tx.0);
            put_addr(&mut body, *observed);
            1
        }
    };
    let mut out = MAGIC.to_vec();
    out.push(reflect);
    out.extend_from_slice(&epoch.to_be_bytes());
    out.extend_from_slice(&tag.0);
    let mac = digest(&[key, &out, &body]);
    out.extend_from_slice(&mac);
    out.extend_from_slice(&body);
    out
}

fn header(datagram: &[u8]) -> Option<Header> {
    if datagram.len() < 26 {
        return None;
    }
    let mut tag = [0u8; 8];
    tag.copy_from_slice(&datagram[9..17]);
    let epoch = u32::from_be_bytes([datagram[5], datagram[6], datagram[7], datagram[8]]);
    Some(Header { reflect: datagram[4] == 1, epoch, tag: Bytes(tag) })
}

fn open(datagram: &[u8], key: &PairKey) -> Option<Message> {
    if digest(&[key, &datagram[..17], &datagram[25..]]) != datagram[17..25] {
        return None;
    }
    let body = &datagram[26..];
    let mut tx = [0u8; 12];
    if datagram[25] != 3 {
        tx.copy_from_slice(&body[..12]);
    }
    let tx = Bytes(tx);
    match datagram[25] {
        1 => Some(Message::Ping { tx }),
        2 => Some(Message::Pong { tx, observed: take_addr(&body[12..]) }),
        3 => Some(Message::CallMeMaybe { candidates: body.chunks(6).map(take_addr).collect() }),
        4 => Some(Message::Reflect { tx }),
        5 => Some(Message::Reflection { tx, observed: take_addr(&body[12..]) }),
        _ => None,
    }
}

fn tx_of(datagram: &[u8], key: &PairKey) -> TxId {
    match open(datagram, key) {
        Some(Message::Ping { tx }) | Some(Message::Reflect { tx }) => tx,
        other => panic!("not a request: {other:?}"),
    }
}

/// A datagram as the peer would build it: their tag, our shared key.
fn from_peer(key: &PairKey, message: &Message, epoch: u32) -> Vec<u8> {
    seal(message, key, &tag(key, THEIR_ID, epoch), epoch)
}

// ── a probe schedule ───────────────────────────────────────────────────────

/// One candidate: how often it was probed, and when it is probed next.
#[derive(Clone, Copy)]
struct Candidate {
    addr: SocketAddr,
    sent: usize,
    due: u64,
}

/// Immediately, then after 100, 300 and 900 ms, then no more.
#[derive(Clone, Default)]
struct Schedule {
    candidates: Vec<Candidate>,
    outstanding: Vec<(TxId, SocketAddr)>,
    searched: Vec<(TxId, SocketAddr)>,
    answered: Vec<TxId>,
    chosen: Option<(SocketAddr, u64)>,
    ours: Vec<SocketAddr>,
    told: Option<u64>,
    searching: bool,
    port: u16,
}

impl Schedule {
    fn add_candidate(&mut self, addr: SocketAddr, now: u64) {
        if !self.candidates.iter().any(|c| c.addr == addr) {
            self.candidates.push(Candidate { addr, sent: 0, due: now });
        }
    }

    fn exhausted(&self) -> bool {
        !self.candidates.is_empty() && self.candidates.iter().all(|c| c.sent > 3)
    }

    fn tick(&mut self, now: u64, mint: &mut dyn FnMut() -> TxId) -> Tick {
        let had_path = self.chosen.is_some();
        if self.chosen.is_some_and(|(_, at)| now.saturating_sub(at) > PATH_STALE_MS) {
            self.chosen = None;
        }
        let mut actions = Vec::new();
        for c in &mut self.candidates {
            if c.sent < 4 && now >= c.due {
                let tx = mint();
                self.outstanding.push((tx, c.addr));
                actions.push(Action::Probe { addr: c.addr, tx });
                c.due = now + [100, 300, 900, 0][c.sent];
                c.sent += 1;
            }
        }
        let repeat = self.chosen.is_none() && self.told.is_some_and(|at| now >= at + 30_000);
        if self.told.is_none() || repeat {
            self.told = Some(now);
            actions.push(Action::Advertise { candidates: self.ours.clone() });
        }
        let direct = self.chosen.is_some();
        Tick {
            had_path,
            direct,
            should_search: self.exhausted() && !direct,
            actions,
            paths: self.candidates.iter().map(|c| (c.addr, PathKind::DirectV4)).collect(),
            round: None,
        }
    }

    fn round(&mut self, mint: &mut dyn FnMut() -> TxId) -> Round {
        let toward = self.candidates[0].addr;
        let scratch = (0..4).map(|_| mint()).collect();
        let mut probes = Vec::new();
        for _ in 0..8 {
            self.port = self.port.wrapping_add(7919);
            let to = SocketAddr::new(toward.ip, self.port);
            let tx = mint();
            self.searched.push((tx, to));
            probes.push((to, tx));
        }
        Round { toward, scratch, probes }
    }
}

fn taken(table: &mut Vec<(TxId, SocketAddr)>, tx: TxId) -> Option<SocketAddr> {
    let at = table.iter().position(|(t, _)| *t == tx)?;
    Some(table.remove(at).1)
}

// ── a node ─────────────────────────────────────────────────────────────────

struct Node {
    disco: Disco,
    keys: Vec<PairKey>,
    schedules: Vec<Schedule>,
    reflect_keys: Vec<(Bytes<32>, PairKey)>,
}

#[derive(Debug, PartialEq)]
enum Seen {
    Handled(Vec<(Vec<u8>, SocketAddr)>),
    NotAven,
}

struct Sent {
    datagrams: Vec<(Vec<u8>, SocketAddr)>,
    relayed: Vec<(Bytes<32>, Vec<u8>)>,
    scratch: Vec<(usize, SocketAddr)>,
}

impl Node {
    fn new(epoch: u32) -> Node {
        Node {
            disco: Disco::new(epoch),
            keys: Vec::new(),
            schedules: Vec::new(),
            reflect_keys: Vec::new(),
        }
    }

    fn add_peer(&mut self, key: PairKey, their_id: &[u8]) -> bool {
        let added = self.disco.add_peer(&their_id.to_vec(), tag(&key, their_id, self.disco.epoch));
        if added {
            self.keys.push(key);
            self.schedules.push(Schedule::default());
        }
        added
    }

    fn add_peer_at(&mut self, key: PairKey, route: usize, at: Option<SocketAddr>) -> bool {
        let their_tag = tag(&key, THEIR_ID, self.disco.epoch);
        let added = self.disco.add_peer_at(&THEIR_ID.to_vec(), their_tag, route, at);
        if added {
            self.keys.push(key);
            self.schedules.push(Schedule::default());
        }
        added
    }

    fn republish(&mut self) {
        let ours = self.disco.candidates();
        for s in &mut self.schedules {
            if s.ours != ours {
                s.ours = ours.clone();
                s.told = None;
            }
        }
    }

    fn set_interfaces(&mut self, addresses: &[IpAddr], port: u16) {
        if self.disco.set_interfaces(&addresses.to_vec(), port) {
            self.republish();
        }
    }

    fn set_reflector(&mut self, relay: [u8; 32], key: PairKey, at: SocketAddr) -> bool {
        let accepted = self.disco.set_reflector(Bytes(relay), reflect_tag(&key), at);
        if accepted {
            self.reflect_keys.retain(|(r, _)| *r != Bytes(relay));
            self.reflect_keys.push((Bytes(relay), key));
        }
        accepted
    }

    fn reflect_key(&self, reflector: usize) -> PairKey {
        let relay = self.disco.reflectors[reflector].relay_id;
        self.reflect_keys.iter().find(|(r, _)| *r == relay).expect("a key").1
    }

    fn sealed(&self, d: &Datagram) -> (Vec<u8>, SocketAddr) {
        let message = match d.request {
            Request::Ping { tx } => Message::Ping { tx },
            Request::Reflect { tx } => Message::Reflect { tx },
        };
        match d.key {
            Key::Peer(i) => {
                let ours = tag(&self.keys[i], OUR_ID, self.disco.epoch);
                (seal(&message, &self.keys[i], &ours, self.disco.epoch), d.to)
            }
            Key::Reflector(k) => {
                let key = self.reflect_key(k);
                (seal(&message, &key, &reflect_tag(&key), 0), d.to)
            }
        }
    }

    fn poll(&mut self, now: u64, mint: &mut dyn FnMut() -> TxId) -> Sent {
        let ids: Vec<TxId> = (0..self.disco.reflectors()).map(|_| mint()).collect();
        let mut ticks = Vec::new();
        for i in 0..self.schedules.len() {
            let mut tick = self.schedules[i].tick(now, mint);
            self.schedules[i].searching = self.disco.will_search(i, &tick);
            if self.schedules[i].searching {
                tick.round = Some(self.schedules[i].round(mint));
            }
            ticks.push(tick);
        }
        let limits = Limits {
            tx_timeout_ms: 5_000,
            reflect_interval_ms: REFLECT_INTERVAL_MS,
            max_outstanding: 16,
        };
        let out = self.disco.poll(now, limits, &ids, &ticks);
        Sent {
            datagrams: out.datagrams.iter().map(|d| self.sealed(d)).collect(),
            relayed: out
                .relayed
                .iter()
                .map(|a| {
                    let key = &self.keys[a.peer];
                    let ours = tag(key, OUR_ID, self.disco.epoch);
                    let message = Message::CallMeMaybe { candidates: a.candidates.clone() };
                    (a.to, seal(&message, key, &ours, self.disco.epoch))
                })
                .collect(),
            scratch: out.scratch.iter().map(|s| (s.route_index, s.datagram.to)).collect(),
        }
    }

    fn inbound(&mut self, datagram: &[u8], from: SocketAddr, now: u64) -> Seen {
        let (verdict, changed) =
            match self.disco.lookup(datagram, &Bytes(MAGIC), header(datagram)) {
                Lookup::NotAven => return Seen::NotAven,
                Lookup::Peer(i) => {
                    let opened = open(datagram, &self.keys[i]);
                    let mut fresh = false;
                    if let Some(message) = &opened {
                        let s = &mut self.schedules[i];
                        match instruction(message, from, s.chosen.map(|(a, _)| a)) {
                            Instruction::Nothing => {}
                            Instruction::Answer { candidate, tx, .. } => {
                                s.add_candidate(candidate, now);
                                fresh = !s.answered.contains(&tx);
                                s.answered.push(tx);
                            }
                            Instruction::Confirm { tx } => {
                                let confirmed = taken(&mut s.outstanding, tx);
                                let searched = taken(&mut s.searched, tx);
                                match confirmation(confirmed, searched) {
                                    Confirmation::Nothing => {}
                                    Confirmation::Path(addr)
                                    | Confirmation::Searched { addr, .. } => {
                                        s.chosen = Some((addr, now));
                                    }
                                }
                            }
                            Instruction::Accept { candidates } => {
                                for c in candidates {
                                    s.add_candidate(c, now);
                                }
                            }
                        }
                    }
                    self.disco.inbound(i, &opened, from, fresh)
                }
                Lookup::Reflector(k) => {
                    let opened = open(datagram, &self.reflect_key(k));
                    self.disco.inbound_reflection(k, &opened)
                }
            };
        if changed {
            self.republish();
        }
        match verdict {
            Verdict::NotAven => Seen::NotAven,
            Verdict::Handled(replies) => Seen::Handled(
                replies
                    .iter()
                    .map(|r| {
                        let key = &self.keys[r.peer];
                        let ours = tag(key, OUR_ID, self.disco.epoch);
                        let pong = Message::Pong { tx: r.tx, observed: r.observed };
                        (seal(&pong, key, &ours, self.disco.epoch), r.to)
                    })
                    .collect(),
            ),
        }
    }

    fn inbound_from_relay(&mut self, source: [u8; 32], datagram: &[u8], now: u64) -> bool {
        let found =
            self.disco.inbound_from_relay(Bytes(source), datagram, &Bytes(MAGIC), header(datagram));
        let i = match found {
            Some(i) => i,
            None => return false,
        };
        match relayed_candidates(&open(datagram, &self.keys[i])) {
            Some(list) => {
                for c in list {
                    self.schedules[i].add_candidate(c, now);
                }
                true
            }
            None => false,
        }
    }

    fn path_changes(&mut self) -> Vec<PathChange> {
        let facts = self
            .schedules
            .iter()
            .map(|s| Scheduled { chosen: s.chosen.map(|(a, _)| a), exhausted: s.exhausted() })
            .collect();
        self.disco.path_changes(&facts)
    }
}

fn pair_key() -> PairKey {
    [0x11; 32]
}

fn with_peer() -> Node {
    let mut d = Node::new(7);
    assert!(d.add_peer(pair_key(), THEIR_ID));
    d
}

/// A source of ids that differ.
fn minter() -> impl FnMut() -> TxId {
    let mut n = 0u8;
    move || {
        n = n.wrapping_add(1);
        id(n)
    }
}

/// Drives one peer until the ordinary probes have given up.
fn exhaust_backoff(d: &mut Node, now: &mut u64) {
    let mut mint = minter();
    for step in [0u64, 100, 300, 900, 1_000] {
        *now += step;
        let _ = d.poll(*now, &mut mint);
    }
}

#[test]
fn the_port_search_starts_only_after_the_ordinary_probes_give_up() {
    let mut d = with_peer();
    d.schedules[0].add_candidate(addr(9), 0);
    let first = d.poll(0, &mut minter());
    assert!(
        first.scratch.is_empty(),
        "a search began before the backoff had run"
    );

    let mut now = 0;
    exhaust_backoff(&mut d, &mut now);
    now += ROUND_INTERVAL_MS;
    let out = d.poll(now, &mut minter());
    assert!(
        !out.scratch.is_empty(),
        "the search never started once the probes were exhausted"
    );
}

#[test]
fn a_relay_is_no_target_of_a_search() {
    let relay = (addr(1), PathKind::Relay);
    let paths = vec![relay, (addr(9), PathKind::DirectV4), (addr(8), PathKind::DirectV6), relay];
    assert_eq!(search_targets(&paths), vec![addr(9), addr(8)]);

    let d = with_peer();
    let mut tick = Tick {
        had_path: false,
        direct: false,
        should_search: true,
        actions: Vec::new(),
        paths: vec![relay],
        round: None,
    };
    assert!(!d.disco.will_search(0, &tick), "there is nothing to search");
    tick.paths = paths;
    assert!(d.disco.will_search(0, &tick));
}

#[test]
fn a_round_earns_one_mapping_per_scratch_datagram_and_probes_one_host() {
    let mut d = with_peer();
    d.schedules[0].add_candidate(addr(9), 0);
    let mut now = 0;
    exhaust_backoff(&mut d, &mut now);
    now += ROUND_INTERVAL_MS;
    let out = d.poll(now, &mut minter());

    assert!(
        out.scratch.iter().all(|(_, to)| *to == addr(9)),
        "scratch datagrams must all go to the one address the peer named"
    );
    let mut ports: Vec<u16> = out
        .datagrams
        .iter()
        .filter(|(_, to)| to.ip == addr(9).ip)
        .map(|(_, to)| to.port)
        .collect();
    assert!(ports.len() > 1, "expected a spread of probes");
    ports.sort_unstable();
    ports.dedup();
    assert!(ports.len() > 1, "every probe went to the same port");
}

#[test]
fn a_pong_answering_a_search_probe_confirms_the_port_it_went_to() {
    let mut d = with_peer();
    d.schedules[0].add_candidate(addr(9), 0);
    let mut now = 0;
    exhaust_backoff(&mut d, &mut now);
    now += ROUND_INTERVAL_MS;
    let mut n = 100u8;
    let round = d.poll(now, &mut || {
        n = n.wrapping_add(1);
        id(n)
    });
    assert!(!round.scratch.is_empty(), "search running");

    let (bytes, to) = round
        .datagrams
        .iter()
        .find(|(_, to)| to.ip == addr(9).ip && to.port != addr(9).port)
        .expect("a search probe");
    let tx = tx_of(bytes, &pair_key());
    let pong = from_peer(&pair_key(), &Message::Pong { tx, observed: addr(1) }, 7);
    let _ = d.inbound(&pong, addr(9), now);

    let chosen = d.schedules[0].chosen.expect("the probe should have confirmed a path").0;
    assert_eq!(chosen, *to, "confirmed another address than the probe went to");
    assert_ne!(
        chosen,
        addr(9),
        "confirmed the advertised address rather than the searched port"
    );
}

#[test]
fn a_ping_from_a_known_peer_is_answered() {
    let mut d = with_peer();
    let ping = from_peer(&pair_key(), &Message::Ping { tx: id(3) }, 7);
    let out = match d.inbound(&ping, addr(9), 1_000) {
        Seen::Handled(out) => out,
        Seen::NotAven => panic!("a known peer's Ping was not handled"),
    };
    assert_eq!(out.len(), 1);
    let (bytes, to) = &out[0];
    assert_eq!(*to, addr(9));
    match open(bytes, &pair_key()) {
        Some(Message::Pong { tx, observed }) => {
            assert_eq!(tx, id(3));
            assert_eq!(observed, addr(9));
        }
        other => panic!("{other:?}"),
    }
}

#[test]
fn a_replayed_ping_is_not_answered_twice() {
    let mut d = with_peer();
    let ping = from_peer(&pair_key(), &Message::Ping { tx: id(3) }, 7);
    assert!(matches!(d.inbound(&ping, addr(9), 1_000), Seen::Handled(o) if o.len() == 1));
    // Replayed from somewhere else entirely.
    assert!(matches!(d.inbound(&ping, addr(200), 1_100), Seen::Handled(o) if o.is_empty()));
}

#[test]
fn a_datagram_without_the_magic_goes_to_phreatic() {
    let mut d = with_peer();
    assert_eq!(d.inbound(&[0x9a; 200], addr(9), 0), Seen::NotAven);
}

#[test]
fn a_phreatic_datagram_that_collides_with_the_magic_falls_through() {
    let mut d = with_peer();
    let mut collided = vec![0u8; 200];
    collided[..4].copy_from_slice(&MAGIC);
    assert_eq!(d.inbound(&collided, addr(9), 0), Seen::NotAven);
}

#[test]
fn a_tag_we_hold_no_key_for_falls_through() {
    let mut d = Node::new(7);
    let ping = from_peer(&[0x99; 32], &Message::Ping { tx: id(1) }, 7);
    assert_eq!(d.inbound(&ping, addr(9), 0), Seen::NotAven);
}

#[test]
fn another_peers_key_does_not_authenticate() {
    let mut d = with_peer();
    let their_tag = tag(&pair_key(), THEIR_ID, 7);
    let ping = seal(&Message::Ping { tx: id(1) }, &[0x22; 32], &their_tag, 7);
    assert_eq!(d.inbound(&ping, addr(9), 0), Seen::NotAven);
}

#[test]
fn an_empty_peer_set_discovers_nothing() {
    let mut d = Node::new(7);
    assert_eq!(d.disco.peer_count(), 0);
    let ping = from_peer(&pair_key(), &Message::Ping { tx: id(1) }, 7);
    assert_eq!(d.inbound(&ping, addr(9), 0), Seen::NotAven);
}

#[test]
fn a_datagram_from_another_epoch_falls_through() {
    let mut d = with_peer();
    let ping = from_peer(&pair_key(), &Message::Ping { tx: id(1) }, 6);
    assert_eq!(d.inbound(&ping, addr(9), 0), Seen::NotAven);
}

#[test]
fn a_pong_confirms_the_probed_endpoint_not_its_source() {
    let mut d = with_peer();
    d.schedules[0].add_candidate(addr(7), 0);
    let probes = d.poll(0, &mut minter()).datagrams;
    assert_eq!(probes.len(), 1);
    assert_eq!(probes[0].1, addr(7));
    let tx = tx_of(&probes[0].0, &pair_key());

    // The answer arrives from an address that was never probed.
    let pong = from_peer(&pair_key(), &Message::Pong { tx, observed: addr(1) }, 7);
    assert!(matches!(d.inbound(&pong, addr(250), 20), Seen::Handled(_)));
    assert_eq!(
        d.schedules[0].chosen.map(|(a, _)| a),
        Some(addr(7)),
        "the source address of the Pong was trusted"
    );
    assert_eq!(
        d.path_changes(),
        vec![PathChange::Install { peer: 0, endpoint: addr(7) }]
    );
}

#[test]
fn a_tag_collision_keeps_the_existing_peer() {
    let mut d = with_peer();
    assert!(!d.add_peer(pair_key(), THEIR_ID));
    assert_eq!(d.disco.peer_count(), 1);
}

#[test]
fn a_udp_call_me_maybe_before_a_direct_path_is_ignored() {
    let mut d = with_peer();
    let message = Message::CallMeMaybe { candidates: vec![addr(11), addr(12)] };
    let cmm = from_peer(&pair_key(), &message, 7);
    assert!(matches!(d.inbound(&cmm, addr(9), 100), Seen::Handled(_)));
    let probes = d.poll(100, &mut minter()).datagrams;
    assert!(probes.is_empty(), "UDP candidate advertisement was accepted");
}

#[test]
fn a_relay_call_me_maybe_produces_probes() {
    let mut d = with_peer();
    let mut their_id = [0u8; 32];
    their_id.copy_from_slice(THEIR_ID);
    d.disco.relay_peers.push((Bytes(their_id), 0));
    let message = Message::CallMeMaybe { candidates: vec![addr(11), addr(12)] };
    assert!(d.inbound_from_relay(their_id, &from_peer(&pair_key(), &message, 7), 100));
    let targets: Vec<SocketAddr> =
        d.poll(100, &mut minter()).datagrams.iter().map(|(_, a)| *a).collect();
    assert!(targets.contains(&addr(11)), "{targets:?}");
    assert!(targets.contains(&addr(12)), "{targets:?}");
}

#[test]
fn a_confirmed_direct_path_may_carry_a_call_me_maybe() {
    let mut d = with_confirmed_path(None);
    assert_eq!(d.schedules[0].chosen.map(|(a, _)| a), Some(addr(9)));
    let cmm = from_peer(&pair_key(), &Message::CallMeMaybe { candidates: vec![addr(11)] }, 7);
    assert!(matches!(d.inbound(&cmm, addr(9), 100), Seen::Handled(_)));
    let targets: Vec<SocketAddr> =
        d.poll(100, &mut minter()).datagrams.into_iter().map(|(_, to)| to).collect();
    assert!(targets.contains(&addr(11)), "{targets:?}");
}

#[test]
fn a_relay_stamped_source_must_match_the_aven_tag_owner() {
    let mut d = with_peer();
    d.disco.relay_peers.push((Bytes([9; 32]), 0));
    let cmm = from_peer(&pair_key(), &Message::CallMeMaybe { candidates: vec![addr(11)] }, 7);
    assert!(d.inbound_from_relay([9; 32], &cmm, 100));
    assert!(
        !d.inbound_from_relay([8; 32], &cmm, 1_000),
        "a relay source absent from the roster was accepted"
    );
}

#[test]
fn a_relay_cannot_carry_a_probe_as_a_candidate_advertisement() {
    let mut d = with_peer();
    d.disco.relay_peers.push((Bytes([9; 32]), 0));
    let ping = from_peer(&pair_key(), &Message::Ping { tx: id(4) }, 7);
    assert!(!d.inbound_from_relay([9; 32], &ping, 100));
}

/// A node whose peer answered at `addr(9)`.
fn with_confirmed_path(configured: Option<SocketAddr>) -> Node {
    let mut d = Node::new(7);
    assert!(d.add_peer_at(pair_key(), 0, configured));
    d.schedules[0].add_candidate(addr(9), 0);
    let probe = d.poll(0, &mut minter()).datagrams;
    let tx = tx_of(&probe.first().expect("candidate was not probed").0, &pair_key());
    let pong = from_peer(&pair_key(), &Message::Pong { tx, observed: addr(9) }, 7);
    assert!(matches!(d.inbound(&pong, addr(9), 10), Seen::Handled(_)));
    d
}

#[test]
fn a_confirmed_path_is_reported_once_and_not_restated() {
    let mut d = with_confirmed_path(None);
    assert_eq!(
        d.path_changes(),
        vec![PathChange::Install { peer: 0, endpoint: addr(9) }]
    );
    assert!(d.path_changes().is_empty());
    let _ = d.poll(20, &mut minter());
    assert!(d.path_changes().is_empty(), "the same path was restated");
}

#[test]
fn a_path_that_is_given_up_on_is_withdrawn() {
    let mut d = with_confirmed_path(Some(addr(1)));
    assert_eq!(
        d.path_changes(),
        vec![PathChange::Install { peer: 0, endpoint: addr(9) }]
    );
    for now in [100, 300, 900, 1_500, 200_000] {
        let _ = d.poll(now, &mut minter());
    }
    assert_eq!(
        d.path_changes(),
        vec![PathChange::Release { peer: 0, installed: addr(9) }]
    );
    assert!(d.path_changes().is_empty(), "the release was repeated");
}

#[test]
fn a_configured_endpoint_that_never_answers_is_withdrawn() {
    let mut d = Node::new(7);
    assert!(d.add_peer_at(pair_key(), 0, Some(addr(1))));
    d.schedules[0].add_candidate(addr(1), 0);
    let mut mint = minter();
    let _ = d.poll(0, &mut mint);
    assert!(
        d.path_changes().is_empty(),
        "the endpoint was withdrawn while it was still being probed"
    );
    for now in [100, 400, 1_300, 2_000] {
        let _ = d.poll(now, &mut mint);
    }
    assert_eq!(
        d.path_changes(),
        vec![PathChange::Release { peer: 0, installed: addr(1) }],
        "a configured endpoint discovery gave up on was not withdrawn"
    );
}

#[test]
fn a_configured_endpoint_that_answers_is_kept() {
    let mut d = with_confirmed_path(Some(addr(9)));
    assert!(
        d.path_changes().is_empty(),
        "a confirmed endpoint was re-reported as a change"
    );
    for now in [100, 400, 1_300, 2_000] {
        let _ = d.poll(now, &mut minter());
    }
    assert!(d.path_changes().is_empty(), "a working endpoint was withdrawn");
}

#[test]
fn a_roster_replacement_withdraws_what_was_installed() {
    let mut d = with_confirmed_path(Some(addr(1)));
    assert_eq!(d.path_changes().len(), 1);
    assert_eq!(
        d.disco.release_all(),
        vec![PathChange::Release { peer: 0, installed: addr(9) }]
    );
    assert!(
        d.disco.release_all().is_empty(),
        "the same withdrawal was issued twice"
    );
}

// ── candidates this node offers ────────────────────────────────────────────

/// Drives one peer to a confirmed path and has it report `observed`.
fn report_reflexive(d: &mut Node, observed: SocketAddr, at: u64) {
    d.schedules[0].add_candidate(addr(9), at);
    let probes = d.poll(at, &mut minter()).datagrams;
    let (bytes, _) = probes.iter().find(|(_, to)| *to == addr(9)).expect("not probed");
    let tx = tx_of(bytes, &pair_key());
    let pong = from_peer(&pair_key(), &Message::Pong { tx, observed }, 7);
    assert!(matches!(d.inbound(&pong, addr(9), at + 1), Seen::Handled(_)));
}

#[test]
fn interface_addresses_become_candidates_on_the_configured_port() {
    let mut d = with_peer();
    d.set_interfaces(&[ip(4), ip(5)], 51820);
    assert_eq!(
        d.disco.candidates(),
        vec![SocketAddr::new(ip(4), 51820), SocketAddr::new(ip(5), 51820)]
    );
}

#[test]
fn a_reflexive_address_is_advertised_after_the_interface_ones() {
    let mut d = with_peer();
    d.set_interfaces(&[ip(4)], 51820);
    report_reflexive(&mut d, mapped(), 1_000);
    assert_eq!(
        d.disco.candidates(),
        vec![SocketAddr::new(ip(4), 51820), mapped()],
        "the peer's view of us was not folded into the candidate list"
    );
}

#[test]
fn a_lying_peer_cannot_displace_this_nodes_own_addresses() {
    let mut d = with_peer();
    let interfaces: Vec<IpAddr> = (0..16).map(ip).collect();
    d.set_interfaces(&interfaces, 51820);
    report_reflexive(&mut d, SocketAddr::new(IpAddr::v4(192, 0, 2, 66), 9), 1_000);

    let candidates = d.disco.candidates();
    assert_eq!(candidates.len(), MAX_CANDIDATES);
    assert!(
        candidates.iter().all(|c| interfaces.contains(&c.ip)),
        "a peer's claim displaced an address this node observed itself"
    );
}

/// A node holding `count` peers, each with its own key and node id.
fn peers(count: u8) -> Node {
    let mut d = Node::new(7);
    for n in 0..count {
        let mut their_id = *b"their-node-id-32-bytes-long-xxxx";
        their_id[31] = n;
        assert!(d.add_peer([0x11 + n; 32], &their_id));
    }
    d
}

fn lie() -> SocketAddr {
    SocketAddr::new(IpAddr::v4(192, 0, 2, 66), 9)
}

#[test]
fn the_most_reported_reflexive_address_is_offered_first() {
    let mut d = peers(3);
    d.disco.peers[1].reflexive = Some(lie());
    d.disco.peers[0].reflexive = Some(mapped());
    d.disco.peers[2].reflexive = Some(mapped());
    assert_eq!(
        d.disco.candidates(),
        vec![mapped(), lie()],
        "one peer's claim outranked the two that agreed"
    );
}

#[test]
fn an_outvoted_reflexive_address_is_dropped_when_the_list_is_full() {
    let mut d = peers(3);
    d.disco.peers[1].reflexive = Some(lie());
    d.disco.peers[0].reflexive = Some(mapped());
    d.disco.peers[2].reflexive = Some(mapped());
    // Fifteen interface addresses leave exactly one slot.
    let interfaces: Vec<IpAddr> = (0..15).map(ip).collect();
    d.set_interfaces(&interfaces, 51820);

    let candidates = d.disco.candidates();
    assert_eq!(candidates.len(), MAX_CANDIDATES);
    assert_eq!(candidates.last(), Some(&mapped()));
    assert!(!candidates.contains(&lie()));
}

#[test]
fn a_candidate_list_does_not_depend_on_map_iteration_order() {
    let build = || {
        let mut d = peers(4);
        for (i, last) in [7u8, 8, 9, 10].into_iter().enumerate() {
            let port = 40000 + u16::from(last) - 7;
            d.disco.peers[i].reflexive =
                Some(SocketAddr::new(IpAddr::v4(203, 0, 113, last), port));
        }
        d.set_interfaces(&[ip(4)], 51820);
        d.disco.candidates()
    };
    let first = build();
    for _ in 0..16 {
        assert_eq!(build(), first);
    }
}

#[test]
fn candidates_produce_a_relayed_call_me_maybe() {
    let mut d = with_peer();
    d.set_interfaces(&[ip(4)], 51820);
    let out = d.poll(0, &mut minter());
    let (destination, payload) =
        out.relayed.first().expect("no advertisement, so no peer ever learns where we are");
    assert_eq!(&destination.0[..], THEIR_ID, "addressed to the wrong node");
    match open(payload, &pair_key()) {
        Some(Message::CallMeMaybe { candidates }) => {
            assert_eq!(candidates, vec![SocketAddr::new(ip(4), 51820)]);
        }
        other => panic!("not a decodable CallMeMaybe: {other:?}"),
    }
}

#[test]
fn re_enumerating_the_same_interfaces_is_not_news() {
    let mut d = with_peer();
    d.set_interfaces(&[ip(4)], 51820);
    assert_eq!(d.poll(0, &mut minter()).relayed.len(), 1);
    d.set_interfaces(&[ip(4)], 51820);
    assert!(
        d.poll(1_000, &mut minter()).relayed.is_empty(),
        "re-enumerating the same interfaces produced a second advertisement"
    );
}

#[test]
fn a_peer_with_no_path_is_told_again() {
    let mut d = with_peer();
    d.set_interfaces(&[ip(4)], 51820);
    assert_eq!(d.poll(0, &mut minter()).relayed.len(), 1);
    assert!(
        !d.poll(60_000, &mut minter()).relayed.is_empty(),
        "a peer that never answered was never told again"
    );
}

#[test]
fn a_node_with_no_candidates_advertises_nothing() {
    let mut d = with_peer();
    assert!(d.poll(0, &mut minter()).relayed.is_empty());
}

#[test]
fn an_incoming_probe_is_itself_a_candidate() {
    let mut d = with_peer();
    assert!(d.poll(0, &mut minter()).datagrams.is_empty());
    let ping = from_peer(&pair_key(), &Message::Ping { tx: id(3) }, 7);
    assert!(matches!(d.inbound(&ping, addr(9), 100), Seen::Handled(_)));
    let probes: Vec<SocketAddr> =
        d.poll(100, &mut minter()).datagrams.into_iter().map(|(_, to)| to).collect();
    assert!(
        probes.contains(&addr(9)),
        "the address a probe arrived from was not probed back: {probes:?}"
    );
}

#[test]
fn disco_does_not_print_its_keys() {
    let d = with_peer();
    let rendered = d.disco.describe();
    assert!(!rendered.contains("11"), "{rendered}");
    assert!(rendered.contains("peers: 1"), "{rendered}");
}

// ── the reflector ──────────────────────────────────────────────────────────

const RELAY_ID: [u8; 32] = [0xaa; 32];
const REFLECT_KEY: [u8; 32] = [0x77; 32];

fn reflector_addr() -> SocketAddr {
    SocketAddr::new(IpAddr::v4(203, 0, 113, 200), 3478)
}

fn mapped() -> SocketAddr {
    SocketAddr::new(IpAddr::v4(203, 0, 113, 7), 40000)
}

fn reflection(tx: TxId, observed: SocketAddr, key: &PairKey) -> Vec<u8> {
    seal(&Message::Reflection { tx, observed }, key, &reflect_tag(key), 0)
}

/// Answers the one `Reflect` that a poll produced, reporting `observed`.
fn answer_reflect(d: &mut Node, observed: SocketAddr, at: u64) -> Seen {
    let out = d.poll(at, &mut || id(0x42));
    let (bytes, _) = out
        .datagrams
        .iter()
        .find(|(_, to)| *to == reflector_addr())
        .expect("no Reflect was sent");
    let reply = reflection(tx_of(bytes, &REFLECT_KEY), observed, &REFLECT_KEY);
    d.inbound(&reply, reflector_addr(), at + 1)
}

#[test]
fn a_reflection_becomes_a_candidate_this_node_advertises() {
    let mut d = with_peer();
    assert!(d.set_reflector(RELAY_ID, REFLECT_KEY, reflector_addr()));
    assert!(d.disco.candidates().is_empty(), "nothing is known yet");
    assert!(matches!(answer_reflect(&mut d, mapped(), 0), Seen::Handled(_)));
    assert_eq!(d.disco.candidates(), vec![mapped()]);
}

#[test]
fn a_reflect_goes_to_the_reflector_and_nowhere_else() {
    let mut d = with_peer();
    assert!(d.set_reflector(RELAY_ID, REFLECT_KEY, reflector_addr()));
    let out = d.poll(0, &mut minter());
    assert!(out.relayed.is_empty(), "a Reflect went over the relay");
    assert_eq!(out.datagrams.len(), 1);
    assert_eq!(out.datagrams[0].1, reflector_addr());
    assert!(
        matches!(open(&out.datagrams[0].0, &REFLECT_KEY), Some(Message::Reflect { .. })),
        "not a Reflect"
    );
}

#[test]
fn a_reflection_answering_no_request_is_ignored() {
    let mut d = with_peer();
    assert!(d.set_reflector(RELAY_ID, REFLECT_KEY, reflector_addr()));
    let unsolicited = reflection(id(0xee), mapped(), &REFLECT_KEY);
    assert_eq!(d.inbound(&unsolicited, reflector_addr(), 0), Seen::NotAven);
    assert!(
        d.disco.candidates().is_empty(),
        "an unsolicited answer was believed"
    );
}

#[test]
fn a_reflection_is_accepted_once_for_its_transaction_id() {
    let mut d = with_peer();
    assert!(d.set_reflector(RELAY_ID, REFLECT_KEY, reflector_addr()));
    let out = d.poll(0, &mut || id(0x42));
    let reply = reflection(tx_of(&out.datagrams[0].0, &REFLECT_KEY), mapped(), &REFLECT_KEY);
    assert!(matches!(d.inbound(&reply, reflector_addr(), 1), Seen::Handled(_)));
    assert_eq!(
        d.inbound(&reply, reflector_addr(), 2),
        Seen::NotAven,
        "the same transaction id was accepted twice"
    );
}

#[test]
fn a_reflection_under_a_key_we_do_not_hold_falls_through() {
    let mut d = with_peer();
    assert!(d.set_reflector(RELAY_ID, REFLECT_KEY, reflector_addr()));
    let forged = reflection(id(1), mapped(), &[0x01; 32]);
    assert_eq!(d.inbound(&forged, reflector_addr(), 0), Seen::NotAven);
}

#[test]
fn a_node_does_not_answer_a_reflect() {
    let mut d = with_peer();
    assert!(d.set_reflector(RELAY_ID, REFLECT_KEY, reflector_addr()));
    let out = d.poll(0, &mut || id(0x42));
    let ours = out.datagrams[0].0.clone();
    assert_eq!(d.inbound(&ours, reflector_addr(), 1), Seen::NotAven);
}

#[test]
fn a_reflector_address_outranks_a_peers_claim() {
    let mut d = peers(1);
    assert!(d.set_reflector(RELAY_ID, REFLECT_KEY, reflector_addr()));
    d.disco.peers[0].reflexive = Some(lie());
    assert!(matches!(answer_reflect(&mut d, mapped(), 0), Seen::Handled(_)));
    assert_eq!(
        d.disco.candidates(),
        vec![mapped(), lie()],
        "a peer's claim outranked a reflector's report"
    );
}

#[test]
fn an_interface_address_still_outranks_a_reflector() {
    let mut d = with_peer();
    assert!(d.set_reflector(RELAY_ID, REFLECT_KEY, reflector_addr()));
    d.set_interfaces(&[ip(4)], 51820);
    assert!(matches!(answer_reflect(&mut d, mapped(), 0), Seen::Handled(_)));
    assert_eq!(
        d.disco.candidates(),
        vec![SocketAddr::new(ip(4), 51820), mapped()]
    );
}

#[test]
fn an_address_a_reflector_reported_is_not_listed_twice() {
    let mut d = peers(1);
    assert!(d.set_reflector(RELAY_ID, REFLECT_KEY, reflector_addr()));
    d.disco.peers[0].reflexive = Some(mapped());
    assert!(matches!(answer_reflect(&mut d, mapped(), 0), Seen::Handled(_)));
    assert_eq!(d.disco.candidates(), vec![mapped()]);
}

#[test]
fn a_dropped_relay_takes_its_reflector_and_its_report_with_it() {
    let mut d = with_peer();
    assert!(d.set_reflector(RELAY_ID, REFLECT_KEY, reflector_addr()));
    assert!(matches!(answer_reflect(&mut d, mapped(), 0), Seen::Handled(_)));
    assert_eq!(d.disco.candidates(), vec![mapped()]);

    d.disco.clear_reflector(&Bytes(RELAY_ID));
    assert_eq!(d.disco.reflectors(), 0);
    assert!(
        d.disco.candidates().is_empty(),
        "a dead relay's report survived it"
    );
    assert!(
        d.poll(1000, &mut minter()).datagrams.iter().all(|(_, to)| *to != reflector_addr()),
        "still probing a reflector that has forgotten us"
    );
}

#[test]
fn a_reconnecting_relay_replaces_its_own_reflector() {
    let mut d = with_peer();
    assert!(d.set_reflector(RELAY_ID, REFLECT_KEY, reflector_addr()));
    assert!(d.set_reflector(RELAY_ID, [0x33; 32], reflector_addr()));
    assert_eq!(d.disco.reflectors(), 1, "the old connection's key outlived it");
}

#[test]
fn the_number_of_reflectors_is_bounded() {
    let mut d = with_peer();
    for n in 0..REFLECTORS_MAX {
        let mut relay = RELAY_ID;
        relay[0] = u8::try_from(n).expect("small");
        assert!(d.set_reflector(relay, [0x77; 32], reflector_addr()), "{n}");
    }
    assert!(!d.set_reflector([0xff; 32], [0x77; 32], reflector_addr()));
    assert_eq!(d.disco.reflectors(), REFLECTORS_MAX);
}

fn asked(d: &mut Node, at: u64) -> usize {
    let out = d.poll(at, &mut minter());
    out.datagrams.iter().filter(|(_, to)| *to == reflector_addr()).count()
}

#[test]
fn reflection_stops_once_every_peer_has_a_direct_path() {
    let mut d = with_peer();
    assert!(d.set_reflector(RELAY_ID, REFLECT_KEY, reflector_addr()));
    assert_eq!(asked(&mut d, 0), 1, "a node with no direct path did not ask");

    let mut d = with_confirmed_path(None);
    assert!(d.set_reflector(RELAY_ID, REFLECT_KEY, reflector_addr()));
    assert_eq!(
        asked(&mut d, 0),
        0,
        "a node with a direct path to every peer still asked for a reflection"
    );
}

#[test]
fn reflection_repeats_on_the_interval_and_not_faster() {
    let mut d = with_peer();
    assert!(d.set_reflector(RELAY_ID, REFLECT_KEY, reflector_addr()));
    assert_eq!(asked(&mut d, 0), 1, "nothing was asked at all");
    assert_eq!(asked(&mut d, 1_000), 0, "asked again a second later");
    assert_eq!(asked(&mut d, REFLECT_INTERVAL_MS), 1, "never asked again");
}

#[test]
fn an_unanswered_reflector_does_not_accumulate_state() {
    let mut d = with_peer();
    assert!(d.set_reflector(RELAY_ID, REFLECT_KEY, reflector_addr()));
    let mut tx = 0u8;
    for n in 0..50 {
        tx = tx.wrapping_add(1);
        let _ = d.poll(n * REFLECT_INTERVAL_MS, &mut || id(tx));
    }
    let held = d.disco.reflectors.iter().map(|r| r.outstanding.len()).sum::<usize>();
    assert!(held <= 1, "{held} outstanding requests accumulated");
}

// ── the roster ─────────────────────────────────────────────────────────────

fn roster_peer(n: u8, keyed: bool, handle: Option<Vec<u8>>) -> RosterPeer {
    RosterPeer { keyed, handle, their_tag: Bytes([n; 8]), endpoint: Some(addr(n)) }
}

#[test]
fn a_roster_peer_needs_a_key_and_a_whole_handle() {
    let mut d = Disco::new(1);
    let roster = vec![
        roster_peer(1, true, Some(vec![1; 32])),
        roster_peer(2, false, Some(vec![2; 32])),
        roster_peer(3, true, None),
        roster_peer(4, true, Some(vec![4; 31])),
        roster_peer(5, true, Some(vec![5; 44])),
    ];
    let seeds = d.reconcile(2, true, &roster);
    assert_eq!(d.epoch, 2);
    assert_eq!(d.peer_count(), 2);
    assert_eq!(d.peers[0].route_index, 0);
    assert_eq!(d.peers[1].route_index, 4, "a skipped peer keeps its place in the roster");
    assert_eq!(d.peers[1].installed, Some(addr(5)), "the configured endpoint is adopted");
    assert_eq!(seeds, vec![(0, addr(1)), (1, addr(5))]);

    assert!(d.reconcile(3, false, &roster).is_empty());
    assert_eq!(d.peer_count(), 0, "a node without an identity discovers nothing");
}

//! The datapath engine: packet lengths, reassembly keys and relay fallback.

use karstd::addr::{IpAddr, SocketAddr};
use karstd::bytes::Bytes;
use karstd::engine::{
    ip_total_length, relay_source_key, Action, Answer, Attribution, Engine, Kept, Output, Roster,
    RosterEntry, Transport, Via, HOME_RELAY_RETRY_MS,
};
use karstd::filter::{
    Addresses, Direction, EgressRule, FilterRule, Packet, PacketFilter, Ports, SshFilter,
    WirePortRange,
};
use karstd::routing::{AllowedIps, Prefix};

fn v4(src: [u8; 4], dst: [u8; 4], payload: usize) -> Vec<u8> {
    let mut p = vec![0u8; 20 + payload];
    p[0] = 0x45;
    let total = u16::try_from(20 + payload).expect("small");
    p[2..4].copy_from_slice(&total.to_be_bytes());
    p[12..16].copy_from_slice(&src);
    p[16..20].copy_from_slice(&dst);
    p
}

#[test]
fn ipv4_length_comes_from_the_header() {
    let p = v4([10, 0, 0, 1], [10, 0, 0, 2], 8);
    assert_eq!(ip_total_length(&p), Some(28));
}

#[test]
fn padding_is_trimmed_using_the_inner_header() {
    let mut p = v4([10, 0, 0, 1], [10, 0, 0, 2], 8);
    p.extend_from_slice(&[0u8; 4]);
    assert_eq!(ip_total_length(&p), Some(28), "padding must not be counted");
}

#[test]
fn a_length_beyond_the_buffer_is_rejected() {
    let mut p = v4([10, 0, 0, 1], [10, 0, 0, 2], 8);
    p[2..4].copy_from_slice(&9000u16.to_be_bytes());
    assert_eq!(ip_total_length(&p), None);
}

#[test]
fn an_ipv4_length_below_the_header_is_rejected() {
    let mut p = v4([10, 0, 0, 1], [10, 0, 0, 2], 8);
    p[2..4].copy_from_slice(&4u16.to_be_bytes());
    assert_eq!(ip_total_length(&p), None);
}

#[test]
fn ipv6_length_excludes_the_fixed_header() {
    let mut p = vec![0u8; 48];
    p[0] = 0x60;
    p[4..6].copy_from_slice(&8u16.to_be_bytes());
    assert_eq!(ip_total_length(&p), Some(48));
}

#[test]
fn garbage_has_no_length() {
    assert_eq!(ip_total_length(&[]), None);
    assert_eq!(ip_total_length(&[0xFF; 64]), None);
    assert_eq!(ip_total_length(&[0x45]), None);
}

/// The reassembly key of a UDP source: its address as IPv6, then its port.
fn source_key(source: SocketAddr) -> Bytes<18> {
    let address: u128 = match source.ip {
        IpAddr::V4(bits) => 0xffff_0000_0000 + u128::from(bits),
        IpAddr::V6(bits) => bits,
    };
    let mut key = [0u8; 18];
    key[..16].copy_from_slice(&address.to_be_bytes());
    key[16..].copy_from_slice(&source.port.to_be_bytes());
    Bytes(key)
}

#[test]
fn a_relayed_stream_cannot_collide_with_any_udp_source() {
    let relayed = relay_source_key(&Bytes([0x11; 32]));
    assert_eq!(relayed.0.first(), Some(&0xFF));

    let sources = [
        SocketAddr::new(IpAddr::v4(255, 255, 255, 255), 65535),
        SocketAddr::new(IpAddr::v4(0, 0, 0, 0), 0),
        SocketAddr::new(IpAddr::V6(u128::from_be_bytes([0xFE; 16])), 51820),
        SocketAddr::new(IpAddr::V6(u128::from_be_bytes([0xFF; 16])), 51820),
    ];
    for source in sources {
        assert_ne!(
            source_key(source),
            relayed,
            "a relayed stream collided with the UDP source {source:?}"
        );
    }
}

#[test]
fn each_relayed_peer_has_its_own_reassembly_key() {
    let mut a = [0x11; 32];
    let mut b = [0x11; 32];
    b[0] = 0x12;
    assert_ne!(relay_source_key(&Bytes(a)), relay_source_key(&Bytes(b)));
    // The key carries the leading 17 bytes of an id and no more.
    a[31] = 0x99;
    assert_eq!(relay_source_key(&Bytes([0x11; 32])), relay_source_key(&Bytes(a)));
}

// ── a node with two peers ──────────────────────────────────────────────────

const OWN_RELAY: Bytes<32> = Bytes([0xa0; 32]);
const OTHER_RELAY: Bytes<32> = Bytes([0xb0; 32]);

fn peer_ip(n: u8) -> IpAddr {
    IpAddr::v4(100, 64, 0, n)
}

fn at(n: u8) -> SocketAddr {
    SocketAddr::new(IpAddr::v4(192, 0, 2, n), 51820)
}

fn entry(n: u8, endpoint: Option<SocketAddr>) -> RosterEntry {
    RosterEntry {
        hint: Bytes([n; 32]),
        endpoint,
        relay_id: Some(Bytes([0x40 + n; 32])),
        home_relay: Some(OTHER_RELAY),
        addresses: vec![Prefix::new(peer_ip(n), 32).expect("prefix")],
        psk: Bytes([0x50 + n; 32]),
    }
}

fn roster_of(entries: Vec<RosterEntry>, filter: PacketFilter, ssh: SshFilter) -> Roster {
    let pairs = entries.iter().enumerate().map(|(i, e)| (e.addresses[0], i)).collect();
    Roster {
        routes: AllowedIps::build(pairs).expect("no conflict"),
        entries,
        filter,
        ssh,
        relays: vec![OWN_RELAY, OTHER_RELAY],
        psk_epoch: 1,
    }
}

fn engine(first: Option<SocketAddr>) -> Engine {
    let entries = vec![entry(2, first), entry(3, None)];
    let mut engine =
        Engine::new(roster_of(entries, PacketFilter::unrestricted(), SshFilter::absent()));
    engine.set_home_relay(Some(OWN_RELAY));
    engine
}

fn tcp(source: IpAddr, source_port: u16, destination: IpAddr, port: u16) -> Packet {
    Packet {
        ports: Some(Ports { protocol: 6, source: source_port, destination: port }),
        addresses: Some(Addresses { source, destination }),
        destination: Some(destination),
    }
}

#[test]
fn a_direct_endpoint_wins_over_every_relay() {
    let mut e = engine(Some(at(2)));
    assert_eq!(e.via(0), Some(Via::Direct(at(2))));
    assert_eq!(e.transport(0), Transport::Direct);
    assert!(e.release_endpoint(0, at(2)));
    assert!(matches!(e.via(0), Some(Via::Relay { .. })));
    assert_eq!(e.transport(0), Transport::Relay);
    assert!(!e.release_endpoint(0, at(2)), "another endpoint may have been learned since");
    assert!(e.set_endpoint(0, at(7)));
    assert_eq!(e.endpoint(0), Some(at(7)));
    assert!(!e.set_endpoint(9, at(7)));
    assert_eq!(e.via(9), None);
}

#[test]
fn a_refusal_by_this_nodes_relay_leads_to_the_peers_own() {
    let mut e = engine(None);
    let own = Some(Via::Relay { relay: None, destination: Bytes([0x42; 32]) });
    let other = Some(Via::Relay { relay: Some(OTHER_RELAY), destination: Bytes([0x42; 32]) });
    assert_eq!(e.via(0), own);
    assert!(e.relay_unreachable(Bytes([0x42; 32]), 5_000));
    assert_eq!(e.via(0), other);
    assert_eq!(e.via(1), Some(Via::Relay { relay: None, destination: Bytes([0x43; 32]) }));

    e.expire_marks(5_000 + HOME_RELAY_RETRY_MS - 1);
    assert_eq!(e.via(0), other);
    e.expire_marks(5_000 + HOME_RELAY_RETRY_MS);
    assert_eq!(e.via(0), own, "the mark was never forgotten");

    assert!(e.relay_unreachable(Bytes([0x42; 32]), 0));
    e.seen_on_home_relay(Bytes([0x42; 32]));
    assert_eq!(e.via(0), own);
    assert!(!e.relay_unreachable(Bytes([0x99; 32]), 1), "nobody on the roster");
}

#[test]
fn outbound_packets_follow_the_routes() {
    let mut e = engine(Some(at(2)));
    let packet = tcp(peer_ip(1), 40000, peer_ip(2), 80);
    assert_eq!(e.outbound(&packet, 0), Some((0, Via::Direct(at(2)))));
    assert_eq!(e.outbound(&tcp(peer_ip(1), 1, peer_ip(9), 80), 0), None);
    assert_eq!(e.stats().unroutable, 1);

    let out = e.sealed(Via::Direct(at(2)), Some(vec![vec![1], vec![2]]));
    assert_eq!(
        out.datagrams,
        vec![(vec![1], Via::Direct(at(2))), (vec![2], Via::Direct(at(2)))]
    );
    assert_eq!(e.stats().tx_packets, 1);
    assert!(e.sealed(Via::Direct(at(2)), None).is_empty());
    assert_eq!(e.stats().tx_dropped_no_session, 1);
}

fn any_port() -> Vec<WirePortRange> {
    vec![WirePortRange { first: 0, last: 65535 }]
}

fn handles() -> Vec<Vec<u8>> {
    vec![b"two".to_vec(), b"three".to_vec()]
}

fn guarded(ssh: SshFilter) -> Engine {
    let ingress = vec![FilterRule { srcs: vec!["two".to_owned()], ports: any_port() }];
    let egress = vec![EgressRule {
        dsts: vec!["three".to_owned()],
        dst_cidrs: Vec::new(),
        ports: any_port(),
    }];
    let filter = PacketFilter::compile(&ingress, &egress, &handles());
    Engine::new(roster_of(vec![entry(2, None), entry(3, None)], filter, ssh))
}

#[test]
fn a_reply_passes_where_its_request_did() {
    let mut e = guarded(SshFilter::absent());
    let request = tcp(peer_ip(1), 40000, peer_ip(3), 80);
    let reply = tcp(peer_ip(3), 80, peer_ip(1), 40000);
    assert!(!e.permit(Direction::In, 1, &reply, 0));
    assert_eq!(e.stats().acl_denied_in, 1);
    assert!(e.permit(Direction::Out, 1, &request, 0));
    assert!(e.permit(Direction::In, 1, &reply, 1));
    assert!(!e.permit(Direction::Out, 0, &tcp(peer_ip(1), 1, peer_ip(2), 80), 1));
    assert_eq!(e.stats().acl_denied_out, 1);
}

#[test]
fn the_ssh_gate_takes_away_and_never_grants() {
    let nobody = SshFilter::compile(&vec![], true, &handles());
    let mut e = guarded(nobody);
    let ssh = tcp(peer_ip(2), 40000, peer_ip(1), 22);
    assert!(!e.permit(Direction::In, 0, &ssh, 0), "a rule permits it, the SSH gate does not");
    assert!(e.permit(Direction::In, 0, &tcp(peer_ip(2), 40000, peer_ip(1), 80), 0));

    let rule = FilterRule { srcs: vec!["*".to_owned()], ports: any_port() };
    let everybody = SshFilter::compile(&vec![rule], true, &handles());
    let mut e = guarded(everybody);
    assert!(e.permit(Direction::In, 0, &ssh, 0));
    let from_three = tcp(peer_ip(3), 40000, peer_ip(1), 22);
    assert!(!e.permit(Direction::In, 1, &from_three, 0), "no rule permits it");
}

#[test]
fn datagrams_are_counted_by_what_is_wrong_with_them() {
    let mut e = engine(None);
    assert!(!e.received(false, false));
    assert!(!e.received(true, false));
    assert!(e.received(true, true));
    assert_eq!((e.stats().malformed, e.stats().mac_failures), (1, 1));
    assert_eq!(e.received_from_relay(Bytes([0x43; 32]), true, true), Some(1));
    assert_eq!(e.received_from_relay(Bytes([0x99; 32]), false, false), None);
    assert_eq!(e.stats().malformed, 1, "a stranger's datagram is not counted");
}

#[test]
fn messages_are_attributed_by_their_source() {
    let e = engine(Some(at(2)));
    assert_eq!(e.inbound(&[4, 0], at(2)), Attribution::Transport(0));
    assert_eq!(e.inbound(&[2, 0], at(2)), Attribution::Session(0));
    assert_eq!(e.inbound(&[4, 0], at(9)), Attribution::Nobody);
    assert_eq!(e.inbound(&[1], at(9)), Attribution::Handshake { known: None, index: 0 });
    assert_eq!(e.inbound(&[1], at(2)), Attribution::Handshake { known: Some(0), index: 1 });
    assert_eq!(
        e.inbound_from_relay(Bytes([0x43; 32]), &[4]),
        Some(Attribution::Transport(1))
    );
    assert_eq!(e.inbound_from_relay(Bytes([0x99; 32]), &[4]), None);
}

#[test]
fn a_handshake_moves_the_endpoint_of_the_peer_it_names() {
    let mut e = engine(Some(at(2)));
    assert_eq!(e.accept_handshake(at(2), true, None), Answer::Repeat(0));
    assert_eq!(e.accept_handshake(at(8), false, Some(Bytes([3; 32]))), Answer::Adopt(1));
    assert_eq!(e.endpoint(1), Some(at(8)));
    assert_eq!(e.accept_handshake(at(9), false, Some(Bytes([77; 32]))), Answer::Discard);
    assert_eq!(e.accept_handshake(at(9), false, None), Answer::Discard);
}

fn raw(source: [u8; 4], pad: usize) -> Vec<u8> {
    let mut p = v4(source, [100, 64, 0, 1], 8);
    p.extend(vec![0u8; pad]);
    p
}

#[test]
fn a_peer_delivers_only_from_its_own_addresses() {
    let mut e = engine(Some(at(2)));
    let mut out = Output::default();
    let honest = Action::Deliver {
        packet: tcp(peer_ip(2), 1, peer_ip(1), 80),
        raw: raw([100, 64, 0, 2], 4),
    };
    let forged = Action::Deliver {
        packet: tcp(peer_ip(3), 1, peer_ip(1), 80),
        raw: raw([100, 64, 0, 3], 0),
    };
    let actions = vec![Action::Send(vec![9]), honest, forged, Action::Established];
    e.apply(0, &actions, 0, &mut out);
    assert_eq!(out.datagrams, vec![(vec![9], Via::Direct(at(2)))]);
    assert_eq!(out.packets, vec![raw([100, 64, 0, 2], 0)], "the padding is trimmed off");
    assert_eq!((e.stats().rx_packets, e.stats().source_violations), (1, 1));
}

#[test]
fn a_reconfiguration_keeps_endpoints_and_forgets_flows() {
    let mut e = guarded(SshFilter::absent());
    assert!(e.set_endpoint(1, at(8)));
    assert!(e.permit(Direction::Out, 1, &tcp(peer_ip(1), 40000, peer_ip(3), 80), 0));
    let entries = vec![entry(3, None), entry(4, None)];
    let filter = PacketFilter::compile(&vec![], &vec![], &vec![]);
    let mut roster = roster_of(entries, filter, SshFilter::absent());
    roster.psk_epoch = 2;
    let (summary, kept) = e.reconfigure(roster);
    assert_eq!((summary.added, summary.removed, summary.kept), (1, 1, 1));
    assert!(summary.epoch_rotated);
    assert_eq!(kept, vec![Some(Kept { from: 1, rearm: true }), None]);
    assert_eq!(e.endpoint(0), Some(at(8)));
    assert!(
        !e.permit(Direction::In, 0, &tcp(peer_ip(3), 80, peer_ip(1), 40000), 1),
        "a permission outlived the policy that gave it"
    );
}

#[test]
fn a_changed_key_is_used_by_the_next_handshake() {
    let open = || PacketFilter::unrestricted();
    let entries = || vec![entry(2, None), entry(3, None)];
    let mut e = Engine::new(roster_of(entries(), open(), SshFilter::absent()));
    let epoch = e.psk_epoch;
    assert_eq!(e.handshake_psk(1), Some((Bytes([0x53; 32]), epoch)));

    let (_, kept) = e.reconfigure(roster_of(entries(), open(), SshFilter::absent()));
    assert!(kept.iter().flatten().all(|k| !k.rearm), "nothing changed");

    let mut changed = entries();
    changed[1].psk = Bytes([0x77; 32]);
    let (summary, kept) = e.reconfigure(roster_of(changed, open(), SshFilter::absent()));
    assert!(!summary.epoch_rotated);
    assert_eq!(summary.kept, 2, "a changed key ends no session");
    assert_eq!(
        kept,
        vec![Some(Kept { from: 0, rearm: false }), Some(Kept { from: 1, rearm: true })]
    );
    assert_eq!(e.handshake_psk(0), Some((Bytes([0x52; 32]), epoch)));
    assert_eq!(e.handshake_psk(1), Some((Bytes([0x77; 32]), epoch)));
    assert_eq!(e.handshake_psk(2), None);
}

#[test]
fn only_peers_with_a_way_are_dialled() {
    let mut e = engine(Some(at(2)));
    assert_eq!(e.connect_all(), vec![true, true]);
    e.relays.clear();
    assert_eq!(e.poll(0), vec![true, false]);
    assert_eq!(e.transport(1).to_text(), "none");
}

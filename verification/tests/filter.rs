//! Packet and SSH filters: what they permit, and that nothing widens them.

use karstd::addr::IpAddr;
use karstd::filter::{
    Addresses, EgressRule, FilterRule, Packet, PacketFilter, Ports, SshFilter, Verdict, WirePortRange,
};
use karstd::routing::Prefix;

fn read16(bytes: &[u8], at: usize) -> u16 {
    u16::from_be_bytes([bytes[at], bytes[at + 1]])
}

fn v4(bytes: &[u8]) -> IpAddr {
    IpAddr::v4(bytes[0], bytes[1], bytes[2], bytes[3])
}

fn v6(bytes: &[u8]) -> IpAddr {
    let mut value: u128 = 0;
    for b in &bytes[..16] {
        value = value << 8 | u128::from(*b);
    }
    IpAddr::V6(value)
}

/// What the headers of a raw packet say, as the packet layer reports it: no
/// ports for a later fragment or a truncated header, port zero for a protocol
/// without ports.
fn header(raw: &[u8]) -> Packet {
    let nothing = Packet { ports: None, addresses: None, destination: None };
    let (protocol, addresses, offset, fragment) = match raw.first().map(|b| b >> 4) {
        Some(4) if raw.len() >= 20 => {
            let addresses = Addresses { source: v4(&raw[12..16]), destination: v4(&raw[16..20]) };
            let offset = usize::from(raw[0] & 0x0f) * 4;
            (raw[9], addresses, offset, read16(raw, 6) & 0x1fff != 0)
        }
        Some(6) if raw.len() >= 40 => {
            let addresses = Addresses { source: v6(&raw[8..24]), destination: v6(&raw[24..40]) };
            (raw[6], addresses, 40, false)
        }
        _ => return nothing,
    };
    let ports = if fragment {
        None
    } else if protocol != 6 && protocol != 17 {
        Some(Ports { protocol, source: 0, destination: 0 })
    } else if raw.len() >= offset + 4 {
        let source = read16(raw, offset);
        let destination = read16(raw, offset + 2);
        Some(Ports { protocol, source, destination })
    } else {
        None
    };
    Packet { ports, addresses: Some(addresses), destination: Some(addresses.destination) }
}

/// The prefix that a dotted text names, if it names one.
fn prefix(text: &str) -> Option<Prefix> {
    let (base, len) = text.split_once('/')?;
    let mut octets: Vec<u8> = Vec::new();
    for part in base.split('.') {
        octets.push(part.parse().ok()?);
    }
    if octets.len() != 4 {
        return None;
    }
    Prefix::new(v4(&octets), len.parse().ok()?)
}

fn handles() -> Vec<Vec<u8>> {
    vec![b"alice".to_vec(), b"bob".to_vec()]
}

fn port(first: u32, last: u32) -> WirePortRange {
    WirePortRange { first, last }
}

fn rule(srcs: &[&str], ports: Vec<WirePortRange>) -> FilterRule {
    FilterRule {
        srcs: srcs.iter().map(|s| (*s).to_owned()).collect(),
        ports,
    }
}

fn egress_rule(dsts: &[&str], ports: Vec<WirePortRange>) -> EgressRule {
    EgressRule {
        dsts: dsts.iter().map(|s| (*s).to_owned()).collect(),
        dst_cidrs: Vec::new(),
        ports,
    }
}

fn egress_cidr_rule(cidrs: &[&str], ports: Vec<WirePortRange>) -> EgressRule {
    EgressRule {
        dsts: Vec::new(),
        dst_cidrs: cidrs.iter().map(|s| prefix(s)).collect(),
        ports,
    }
}

fn tcp(dst_port: u16) -> Packet {
    tcp_to([10, 0, 0, 2], dst_port)
}

fn tcp_to(dst: [u8; 4], dst_port: u16) -> Packet {
    header(&raw_tcp_to(dst, dst_port))
}

fn raw_tcp_to(dst: [u8; 4], dst_port: u16) -> Vec<u8> {
    let mut p = vec![0u8; 24];
    p[0] = 0x45;
    p[2..4].copy_from_slice(&24u16.to_be_bytes());
    p[9] = 6;
    p[12..16].copy_from_slice(&[10, 0, 0, 1]);
    p[16..20].copy_from_slice(&dst);
    p[20..22].copy_from_slice(&40000u16.to_be_bytes());
    p[22..24].copy_from_slice(&dst_port.to_be_bytes());
    p
}

fn tcp6_to(dst: [u8; 16], dst_port: u16) -> Packet {
    let mut p = vec![0u8; 44];
    p[0] = 0x60;
    p[4..6].copy_from_slice(&4u16.to_be_bytes());
    p[6] = 6; // next header: TCP
    p[7] = 64; // hop limit
    p[8..24].copy_from_slice(&[0xfd; 16]); // source, unused by the filter
    p[24..40].copy_from_slice(&dst);
    p[40..42].copy_from_slice(&40000u16.to_be_bytes());
    p[42..44].copy_from_slice(&dst_port.to_be_bytes());
    header(&p)
}

fn owns_tcp_destination() -> Vec<Prefix> {
    vec![prefix("10.0.0.2/32").expect("valid prefix")]
}

fn icmp() -> Packet {
    let mut p = vec![0u8; 28];
    p[0] = 0x45;
    p[2..4].copy_from_slice(&28u16.to_be_bytes());
    p[9] = 1;
    p[20] = 8;
    header(&p)
}

#[test]
fn an_empty_rule_set_denies_everything() {
    let f = PacketFilter::compile(&vec![], &vec![], &handles());
    assert_eq!(f.ingress(0, &tcp(22)), Verdict::Denied);
    assert_eq!(f.egress(0, &tcp(22), &vec![]), Verdict::Denied);
    assert_eq!(f.ingress(0, &icmp()), Verdict::Denied);
    assert!(f.is_enforcing());
}

#[test]
fn no_policy_source_is_not_the_same_as_an_empty_policy() {
    let none = PacketFilter::unrestricted();
    assert_eq!(none.ingress(0, &tcp(22)), Verdict::Permit);
    assert!(!none.is_enforcing());
    assert_eq!(none.rule_counts(), None);

    let empty = PacketFilter::compile(&vec![], &vec![], &handles());
    assert_eq!(empty.ingress(0, &tcp(22)), Verdict::Denied);
    assert!(empty.is_enforcing());
    assert_eq!(empty.rule_counts(), Some((0, 0)));
}

#[test]
fn the_two_states_are_distinguishable_in_debug_output() {
    let none = PacketFilter::unrestricted().describe();
    let empty = PacketFilter::compile(&vec![], &vec![], &handles()).describe();
    assert!(none.contains("unrestricted"), "{none}");
    assert!(empty.contains("deny-all"), "{empty}");
    assert_ne!(none, empty);
}

#[test]
fn a_rule_permits_only_its_own_peers_and_ports() {
    let f = PacketFilter::compile(&vec![rule(&["alice"], vec![port(22, 22)])], &vec![], &handles());
    assert_eq!(f.ingress(0, &tcp(22)), Verdict::Permit);
    assert_eq!(f.ingress(0, &tcp(23)), Verdict::Denied, "wrong port");
    assert_eq!(f.ingress(1, &tcp(22)), Verdict::Denied, "wrong peer");
}

#[test]
fn a_wildcard_source_matches_any_peer() {
    let f = PacketFilter::compile(&vec![rule(&["*"], vec![port(443, 443)])], &vec![], &handles());
    assert_eq!(f.ingress(0, &tcp(443)), Verdict::Permit);
    assert_eq!(f.ingress(1, &tcp(443)), Verdict::Permit);
    assert_eq!(f.ingress(1, &tcp(80)), Verdict::Denied);
}

#[test]
fn port_ranges_are_inclusive_at_both_ends() {
    let f = PacketFilter::compile(&vec![rule(&["*"], vec![port(8000, 8002)])], &vec![], &handles());
    for p in [8000u16, 8001, 8002] {
        assert_eq!(f.ingress(0, &tcp(p)), Verdict::Permit, "port {p}");
    }
    assert_eq!(f.ingress(0, &tcp(7999)), Verdict::Denied);
    assert_eq!(f.ingress(0, &tcp(8003)), Verdict::Denied);
}

#[test]
fn a_protocol_without_ports_is_covered_by_a_wildcard_port_range_only() {
    let any = PacketFilter::compile(&vec![rule(&["*"], vec![port(0, 65535)])], &vec![], &handles());
    assert_eq!(any.ingress(0, &icmp()), Verdict::Permit);

    let ssh = PacketFilter::compile(&vec![rule(&["*"], vec![port(22, 22)])], &vec![], &handles());
    assert_eq!(
        ssh.ingress(0, &icmp()),
        Verdict::Denied,
        "a rule about port 22 must not permit a protocol with no port"
    );
}

#[test]
fn rules_accumulate() {
    let f = PacketFilter::compile(
        &vec![
            rule(&["alice"], vec![port(22, 22)]),
            rule(&["bob"], vec![port(443, 443)]),
        ],
        &vec![],
        &handles(),
    );
    assert_eq!(f.ingress(0, &tcp(22)), Verdict::Permit);
    assert_eq!(f.ingress(1, &tcp(443)), Verdict::Permit);
    assert_eq!(f.ingress(0, &tcp(443)), Verdict::Denied);
    assert_eq!(f.ingress(1, &tcp(22)), Verdict::Denied);
}

#[test]
fn a_rule_naming_only_unknown_peers_is_discarded_not_widened() {
    let f = PacketFilter::compile(
        &vec![rule(&["nobody", "stranger"], vec![port(0, 65535)])],
        &vec![],
        &handles(),
    );
    assert_eq!(f.rule_counts(), Some((0, 0)), "the rule must be dropped");
    assert_eq!(f.ingress(0, &tcp(22)), Verdict::Denied);
    assert_eq!(f.ingress(1, &tcp(22)), Verdict::Denied);
}

#[test]
fn unknown_peers_are_dropped_from_a_rule_that_still_names_a_known_one() {
    let f = PacketFilter::compile(
        &vec![rule(&["nobody", "bob"], vec![port(22, 22)])],
        &vec![],
        &handles(),
    );
    assert_eq!(f.ingress(1, &tcp(22)), Verdict::Permit);
    assert_eq!(f.ingress(0, &tcp(22)), Verdict::Denied);
}

#[test]
fn a_rule_with_no_ports_is_discarded_not_widened() {
    let f = PacketFilter::compile(&vec![rule(&["*"], vec![])], &vec![], &handles());
    assert_eq!(f.rule_counts(), Some((0, 0)));
    assert_eq!(f.ingress(0, &tcp(22)), Verdict::Denied);
}

#[test]
fn impossible_port_ranges_are_dropped_rather_than_clamped() {
    let f = PacketFilter::compile(
        &vec![rule(&["*"], vec![port(100, 50), port(70000, 80000)])],
        &vec![],
        &handles(),
    );
    assert_eq!(f.rule_counts(), Some((0, 0)));
    assert_eq!(f.ingress(0, &tcp(75)), Verdict::Denied);
    assert_eq!(f.ingress(0, &tcp(65535)), Verdict::Denied);
}

#[test]
fn an_unclassifiable_packet_is_denied() {
    let f = PacketFilter::compile(&vec![rule(&["*"], vec![port(0, 65535)])], &vec![], &handles());

    let mut fragment = raw_tcp_to([10, 0, 0, 2], 22);
    fragment[6] = 0x00;
    fragment[7] = 0x01; // fragment offset 1
    assert_eq!(f.ingress(0, &header(&fragment)), Verdict::Unclassifiable);
    assert!(!f.ingress(0, &header(&fragment)).permitted());

    // Even a wildcard-everything policy does not pass garbage.
    assert!(!f.ingress(0, &header(&[0xFF; 40])).permitted());
    assert!(!f.ingress(0, &header(&vec![])).permitted());
}

#[test]
fn a_refusal_says_which_kind_it_is() {
    let f = PacketFilter::compile(&vec![rule(&["*"], vec![port(22, 22)])], &vec![], &handles());
    assert_eq!(f.ingress(0, &tcp(80)), Verdict::Denied);
    assert_eq!(f.ingress(0, &header(&[0x45, 0x00])), Verdict::Unclassifiable);
}

#[test]
fn the_two_directions_do_not_imply_each_other() {
    let f = PacketFilter::compile(
        &vec![rule(&["bob"], vec![port(22, 22)])],
        &vec![egress_rule(&["alice"], vec![port(443, 443)])],
        &handles(),
    );

    assert_eq!(f.ingress(1, &tcp(22)), Verdict::Permit);
    assert_eq!(
        f.egress(1, &tcp(22), &owns_tcp_destination()),
        Verdict::Denied,
        "being allowed to receive from bob on 22 says nothing about sending"
    );

    assert_eq!(
        f.egress(0, &tcp(443), &owns_tcp_destination()),
        Verdict::Permit
    );
    assert_eq!(f.ingress(0, &tcp(443)), Verdict::Denied);
}

#[test]
fn an_empty_egress_set_denies_even_when_ingress_permits() {
    let f = PacketFilter::compile(&vec![rule(&["*"], vec![port(0, 65535)])], &vec![], &handles());
    assert_eq!(f.ingress(0, &tcp(22)), Verdict::Permit);
    assert_eq!(
        f.egress(0, &tcp(22), &owns_tcp_destination()),
        Verdict::Denied
    );
}

#[test]
fn a_dst_cidr_grant_permits_any_peer_carrying_a_matching_destination() {
    let f = PacketFilter::compile(
        &vec![],
        &vec![egress_cidr_rule(&["10.50.0.0/24"], vec![port(0, 65535)])],
        &handles(),
    );
    assert_eq!(
        f.egress(0, &tcp_to([10, 50, 0, 10], 80), &vec![]),
        Verdict::Permit
    );
    assert_eq!(
        f.egress(1, &tcp_to([10, 50, 0, 10], 80), &vec![]),
        Verdict::Permit,
        "a different peer carrying the same granted destination is equally permitted"
    );
}

#[test]
fn a_destination_outside_every_granted_cidr_is_denied() {
    let f = PacketFilter::compile(
        &vec![],
        &vec![egress_cidr_rule(&["10.50.0.0/24"], vec![port(0, 65535)])],
        &handles(),
    );
    assert_eq!(
        f.egress(0, &tcp_to([10, 50, 1, 10], 80), &vec![]),
        Verdict::Denied,
        "10.50.1.0/24 is a sibling network, not the granted /24"
    );
    assert_eq!(
        f.egress(0, &tcp_to([203, 0, 113, 1], 80), &vec![]),
        Verdict::Denied
    );
}

#[test]
fn dst_cidr_matching_never_crosses_address_families() {
    let f = PacketFilter::compile(
        &vec![],
        &vec![egress_cidr_rule(&["10.50.0.0/24"], vec![port(0, 65535)])],
        &handles(),
    );
    let mapped = tcp6_to(
        [0, 0, 0, 0, 0, 0, 0, 0, 0, 0, 0xff, 0xff, 10, 50, 0, 10],
        80,
    );
    assert_eq!(
        f.egress(0, &mapped, &vec![]),
        Verdict::Denied,
        "a v4-mapped v6 destination must not match a v4 prefix"
    );
}

#[test]
fn a_node_grant_and_a_dst_cidr_grant_apply_independently() {
    let f = PacketFilter::compile(
        &vec![],
        &vec![
            egress_rule(&["alice"], vec![port(443, 443)]),
            egress_cidr_rule(&["10.50.0.0/24"], vec![port(80, 80)]),
        ],
        &handles(),
    );
    assert_eq!(
        f.egress(0, &tcp(443), &owns_tcp_destination()),
        Verdict::Permit,
        "alice, port 443"
    );
    assert_eq!(
        f.egress(0, &tcp(80), &owns_tcp_destination()),
        Verdict::Denied,
        "alice on 80 matches neither rule (10.0.0.2 is outside the /24)"
    );
    assert_eq!(
        f.egress(1, &tcp_to([10, 50, 0, 5], 80), &vec![]),
        Verdict::Permit,
        "bob reaching the granted subnet on 80, via the CIDR grant alone — bob owns nothing here"
    );
    assert_eq!(
        f.egress(1, &tcp_to([10, 50, 0, 5], 443), &vec![]),
        Verdict::Denied,
        "the subnet grant is scoped to port 80, not 443"
    );
}

#[test]
fn an_unparseable_dst_cidr_grants_nothing() {
    let f = PacketFilter::compile(
        &vec![],
        &vec![egress_cidr_rule(&["not-a-cidr"], vec![port(0, 65535)])],
        &handles(),
    );
    assert_eq!(
        f.egress(0, &tcp_to([10, 50, 0, 10], 80), &vec![]),
        Verdict::Denied
    );
}

#[test]
fn a_node_handle_grant_to_a_gateway_does_not_leak_its_forwarded_traffic() {
    let f = PacketFilter::compile(
        &vec![],
        &vec![egress_rule(&["alice"], vec![port(0, 65535)])],
        &handles(),
    );
    // alice (peer 0) is granted egress to alice's own handle — ordinary,
    // and it must still work when the destination really is alice's own
    // address.
    assert_eq!(
        f.egress(0, &tcp(80), &owns_tcp_destination()),
        Verdict::Permit,
        "a node-handle grant must still work for the peer's own address"
    );
    // The same rule, the same peer index, but the packet is headed to a
    // subnet alice merely gateways — alice does not own it. No CIDR rule
    // grants it either. This must be denied.
    assert_eq!(
        f.egress(0, &tcp_to([10, 50, 0, 10], 80), &owns_tcp_destination()),
        Verdict::Denied,
        "a node-handle grant to the gateway must not forward to a subnet it merely carries"
    );
}

#[test]
fn an_out_of_range_peer_matches_only_a_wildcard() {
    let named = PacketFilter::compile(&vec![rule(&["alice"], vec![port(22, 22)])], &vec![], &handles());
    assert_eq!(named.ingress(99, &tcp(22)), Verdict::Denied);

    let any = PacketFilter::compile(&vec![rule(&["*"], vec![port(22, 22)])], &vec![], &handles());
    assert_eq!(any.ingress(99, &tcp(22)), Verdict::Permit);
}

#[test]
fn an_absent_ssh_block_permits_everything() {
    let f = SshFilter::absent();
    assert_eq!(f.admits(0), Verdict::Permit);
    assert!(!f.is_enforcing());
    assert_eq!(f.rule_count(), None);
}

#[test]
fn an_empty_ssh_rule_set_denies_everything() {
    let f = SshFilter::compile(&vec![], true, &handles());
    assert_eq!(f.admits(0), Verdict::Denied);
    assert!(f.is_enforcing());
    assert_eq!(f.rule_count(), Some(0));
}

#[test]
fn present_false_is_absent_even_with_rules() {
    let f = SshFilter::compile(&vec![rule(&["alice"], vec![port(22, 22)])], false, &handles());
    assert_eq!(f.admits(0), Verdict::Permit);
    assert!(!f.is_enforcing());
}

#[test]
fn the_three_states_are_distinguishable_in_debug_output() {
    let absent = SshFilter::absent().describe();
    let deny_all = SshFilter::compile(&vec![], true, &handles()).describe();
    let granting = SshFilter::compile(&vec![rule(&["alice"], vec![port(22, 22)])], true, &handles()).describe();
    assert!(absent.contains("absent"), "{absent}");
    assert!(deny_all.contains("deny-all"), "{deny_all}");
    assert!(granting.contains("1 rule"), "{granting}");
    assert_ne!(absent, deny_all);
    assert_ne!(deny_all, granting);
}

#[test]
fn an_ssh_rule_permits_only_its_own_peer() {
    let f = SshFilter::compile(&vec![rule(&["alice"], vec![port(22, 22)])], true, &handles());
    assert_eq!(f.admits(0), Verdict::Permit);
    assert_eq!(f.admits(1), Verdict::Denied);
}

#[test]
fn an_ssh_wildcard_matches_any_peer() {
    let f = SshFilter::compile(&vec![rule(&["*"], vec![port(22, 22)])], true, &handles());
    assert_eq!(f.admits(0), Verdict::Permit);
    assert_eq!(f.admits(1), Verdict::Permit);
}

#[test]
fn an_ssh_rule_naming_only_unknown_peers_is_discarded_not_widened() {
    let f = SshFilter::compile(
        &vec![rule(&["nobody", "stranger"], vec![port(22, 22)])],
        true,
        &handles(),
    );
    assert_eq!(f.rule_count(), Some(0));
    assert_eq!(f.admits(0), Verdict::Denied);
}

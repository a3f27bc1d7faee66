//! Connection tracking: a permitted request permits its reply, and no more.

use karstd::addr::IpAddr;
use karstd::filter::{Addresses, Direction, Packet, Ports};
use karstd::flow::{Flows, SshAdmissions, IDLE_MS, MAX_FLOWS};

fn read16(bytes: &[u8], at: usize) -> u16 {
    u16::from_be_bytes([bytes[at], bytes[at + 1]])
}

fn v4(bytes: &[u8]) -> IpAddr {
    IpAddr::v4(bytes[0], bytes[1], bytes[2], bytes[3])
}

fn v6(bytes: &[u8]) -> IpAddr {
    let mut value: u128 = 0;
    for b in &bytes[..16] {
        value = value << 8 | u128::from(*b);
    }
    IpAddr::V6(value)
}

/// What the headers of a raw packet say, as the packet layer reports it: no
/// ports for a later fragment or a truncated header, port zero for a protocol
/// without ports.
fn header(raw: &[u8]) -> Packet {
    let nothing = Packet { ports: None, addresses: None, destination: None };
    let (protocol, addresses, offset, fragment) = match raw.first().map(|b| b >> 4) {
        Some(4) if raw.len() >= 20 => {
            let addresses = Addresses { source: v4(&raw[12..16]), destination: v4(&raw[16..20]) };
            let offset = usize::from(raw[0] & 0x0f) * 4;
            (raw[9], addresses, offset, read16(raw, 6) & 0x1fff != 0)
        }
        Some(6) if raw.len() >= 40 => {
            let addresses = Addresses { source: v6(&raw[8..24]), destination: v6(&raw[24..40]) };
            (raw[6], addresses, 40, false)
        }
        _ => return nothing,
    };
    let ports = if fragment {
        None
    } else if protocol != 6 && protocol != 17 {
        Some(Ports { protocol, source: 0, destination: 0 })
    } else if raw.len() >= offset + 4 {
        let source = read16(raw, offset);
        let destination = read16(raw, offset + 2);
        Some(Ports { protocol, source, destination })
    } else {
        None
    };
    Packet { ports, addresses: Some(addresses), destination: Some(addresses.destination) }
}

fn tcp(src: [u8; 4], src_port: u16, dst: [u8; 4], dst_port: u16) -> Packet {
    header(&raw_tcp(src, src_port, dst, dst_port))
}

fn raw_tcp(src: [u8; 4], src_port: u16, dst: [u8; 4], dst_port: u16) -> Vec<u8> {
    let mut p = vec![0u8; 40];
    p[0] = 0x45;
    let total = u16::try_from(p.len()).expect("small");
    p[2..4].copy_from_slice(&total.to_be_bytes());
    p[9] = 6; // TCP
    p[12..16].copy_from_slice(&src);
    p[16..20].copy_from_slice(&dst);
    p[20..22].copy_from_slice(&src_port.to_be_bytes());
    p[22..24].copy_from_slice(&dst_port.to_be_bytes());
    p
}

const US: [u8; 4] = [100, 64, 0, 2];
const THEM: [u8; 4] = [100, 64, 0, 3];

#[test]
fn a_reply_to_a_permitted_request_is_permitted() {
    let mut flows = Flows::new();
    let request = tcp(US, 54321, THEM, 22);
    let reply = tcp(THEM, 22, US, 54321);

    assert!(
        !flows.permits(Direction::In, &reply, 0),
        "a reply was permitted before anything was sent"
    );
    flows.record(Direction::Out, &request, 0);
    assert!(flows.permits(Direction::In, &reply, 1));
}

#[test]
fn a_reply_to_a_permitted_inbound_request_may_be_sent() {
    let mut flows = Flows::new();
    let request = tcp(THEM, 54321, US, 22);
    let reply = tcp(US, 22, THEM, 54321);

    flows.record(Direction::In, &request, 0);
    assert!(flows.permits(Direction::Out, &reply, 1));
}

#[test]
fn a_flow_permits_nothing_but_its_own_reverse() {
    let mut flows = Flows::new();
    flows.record(Direction::Out, &tcp(US, 54321, THEM, 22), 0);

    for (what, packet) in [
        ("a different local port", tcp(THEM, 22, US, 54322)),
        ("a different remote port", tcp(THEM, 23, US, 54321)),
        (
            "a different remote address",
            tcp([100, 64, 0, 9], 22, US, 54321),
        ),
        (
            "a different local address",
            tcp(THEM, 22, [100, 64, 0, 9], 54321),
        ),
    ] {
        assert!(
            !flows.permits(Direction::In, &packet, 1),
            "the flow permitted {what}"
        );
    }

    // Same five-tuple, different protocol.
    let mut udp = raw_tcp(THEM, 22, US, 54321);
    udp[9] = 17;
    assert!(!flows.permits(Direction::In, &header(&udp), 1), "protocol ignored");
}

#[test]
fn a_flow_expires_when_it_goes_quiet() {
    let mut flows = Flows::new();
    flows.record(Direction::Out, &tcp(US, 54321, THEM, 22), 0);
    let reply = tcp(THEM, 22, US, 54321);

    assert!(flows.permits(Direction::In, &reply, IDLE_MS));
    assert!(!flows.permits(Direction::In, &reply, IDLE_MS * 2 + 1));
}

#[test]
fn traffic_refreshes_a_flow() {
    let mut flows = Flows::new();
    flows.record(Direction::Out, &tcp(US, 54321, THEM, 22), 0);
    let reply = tcp(THEM, 22, US, 54321);

    let mut now = 0;
    for _ in 0..10 {
        now += IDLE_MS - 1;
        assert!(
            flows.permits(Direction::In, &reply, now),
            "cut off at {now}"
        );
    }
}

#[test]
fn the_table_is_bounded() {
    let mut flows = Flows::new();
    for n in 0..MAX_FLOWS * 2 {
        let port = u16::try_from(n % 60000).unwrap_or(0).saturating_add(1024);
        let addr = [100, 64, 1, u8::try_from(n / 60000).unwrap_or(0)];
        flows.record(Direction::Out, &tcp(US, port, addr, 22), 0);
    }
    assert!(flows.len() <= MAX_FLOWS, "{} flows held", flows.len());
}

#[test]
fn expiry_is_reclaimed_before_anything_live() {
    let mut flows = Flows::new();
    for n in 0..MAX_FLOWS {
        let port = u16::try_from(n).unwrap_or(0).saturating_add(1024);
        flows.record(Direction::Out, &tcp(US, port, THEM, 22), 0);
    }
    let live = tcp(US, 60001, THEM, 22);
    flows.record(Direction::Out, &live, IDLE_MS * 2);

    // Everything from t=0 has lapsed, so the newcomer costs nothing live.
    assert!(flows.permits(Direction::In, &tcp(THEM, 22, US, 60001), IDLE_MS * 2 + 1));
    assert!(flows.len() <= MAX_FLOWS);
}

#[test]
fn clearing_revokes_every_cached_permission() {
    let mut flows = Flows::new();
    flows.record(Direction::Out, &tcp(US, 54321, THEM, 22), 0);
    flows.clear();
    assert!(flows.is_empty());
    assert!(!flows.permits(Direction::In, &tcp(THEM, 22, US, 54321), 1));
}

#[test]
fn an_unclassifiable_packet_is_inert() {
    let mut flows = Flows::new();
    let mut fragment = raw_tcp(US, 54321, THEM, 22);
    fragment[6] = 0x00;
    fragment[7] = 0x10; // non-zero fragment offset

    flows.record(Direction::Out, &header(&fragment), 0);
    assert!(flows.is_empty(), "a fragment opened a flow");
    assert!(!flows.permits(Direction::Out, &header(&fragment), 0));
}

#[test]
fn an_unadmitted_flow_is_reported_as_such() {
    let mut admissions = SshAdmissions::new();
    let flow = tcp(THEM, 54321, US, 22);
    assert!(!admissions.is_admitted(Direction::In, &flow, 0));
}

#[test]
fn admitting_a_flow_makes_it_report_as_admitted() {
    let mut admissions = SshAdmissions::new();
    let flow = tcp(THEM, 54321, US, 22);
    admissions.record(Direction::In, &flow, 0);
    assert!(admissions.is_admitted(Direction::In, &flow, 1));
}

#[test]
fn an_admission_covers_only_its_own_flow() {
    let mut admissions = SshAdmissions::new();
    admissions.record(Direction::In, &tcp(THEM, 54321, US, 22), 0);
    assert!(!admissions.is_admitted(Direction::In, &tcp(THEM, 54322, US, 22), 1));
}

#[test]
fn an_admission_expires_when_it_goes_quiet() {
    let mut admissions = SshAdmissions::new();
    let flow = tcp(THEM, 54321, US, 22);
    admissions.record(Direction::In, &flow, 0);
    assert!(admissions.is_admitted(Direction::In, &flow, IDLE_MS));
    assert!(!admissions.is_admitted(Direction::In, &flow, IDLE_MS * 2 + 1));
}

#[test]
fn traffic_refreshes_an_admission() {
    let mut admissions = SshAdmissions::new();
    let flow = tcp(THEM, 54321, US, 22);
    admissions.record(Direction::In, &flow, 0);

    let mut now = 0;
    for _ in 0..10 {
        now += IDLE_MS - 1;
        assert!(admissions.is_admitted(Direction::In, &flow, now), "cut off at {now}");
    }
}

#[test]
fn clearing_revokes_every_admission() {
    let mut admissions = SshAdmissions::new();
    let flow = tcp(THEM, 54321, US, 22);
    admissions.record(Direction::In, &flow, 0);
    admissions.clear();
    assert!(admissions.is_empty());
    assert!(!admissions.is_admitted(Direction::In, &flow, 1));
}

#[test]
fn an_unclassifiable_packet_does_not_create_an_admission() {
    let mut admissions = SshAdmissions::new();
    let mut fragment = raw_tcp(THEM, 54321, US, 22);
    fragment[6] = 0x00;
    fragment[7] = 0x10; // non-zero fragment offset

    admissions.record(Direction::In, &header(&fragment), 0);
    assert!(admissions.is_empty(), "a fragment created an admission");
}

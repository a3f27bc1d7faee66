//! Configuration: the strictness of its forms, rosters and netmaps.

use karstd::addr::{IpAddr, SocketAddr};
use karstd::bytes::Bytes;
use karstd::cli::check_report;
use karstd::config::{
    check_permissions, decode_hex, encode_hex, load_keys, Config, ConfigError, ControlSection, File,
    KeySeeds, LocalSettings, Netmap, NetmapPeer, NetworkMode, NodeSection, PeerSection,
    PublishSection, PRIVATE_KEY_LEN,
};
use karstd::control::{load_config, Client, Error, Identity, Origin, Source};
use karstd::crypto::kem_key_valid;
use karstd::engine::RosterEntry;
use karstd::filter::{Addresses, FilterRule, Packet, Ports, WirePortRange};
use karstd::nat64::{Mode, Nat64Prefix};
use karstd::routing::{InterfaceAddress, Prefix};

#[test]
fn hex_decoding_is_strict() {
    assert!(decode_hex("00ff", 2, "f").is_ok());
    assert!(decode_hex("00FF", 2, "f").is_ok(), "upper case is accepted");
    assert!(decode_hex("00f", 2, "f").is_err(), "wrong length");
    assert!(decode_hex("00gg", 2, "f").is_err(), "non-hex");
    assert!(decode_hex("00 f", 2, "f").is_err(), "embedded space");
    assert_eq!(decode_hex("0aff", 2, "f").expect("valid"), vec![0x0a, 0xff]);
}

#[test]
fn hex_round_trips() {
    let bytes: Vec<u8> = (0..=255u8).collect();
    let hex = encode_hex(&bytes);
    assert_eq!(decode_hex(&hex, 256, "f").expect("round trip"), bytes);
}

fn ip(text: &str) -> IpAddr {
    let octets: Vec<u8> = text.split('.').map(|part| part.parse().expect("octet")).collect();
    IpAddr::v4(octets[0], octets[1], octets[2], octets[3])
}

fn socket(text: &str) -> SocketAddr {
    let (host, port) = text.rsplit_once(':').expect("port");
    SocketAddr::new(ip(host), port.parse().expect("port"))
}

fn prefix(text: &str) -> Prefix {
    let (base, len) = text.split_once('/').expect("length");
    Prefix::new(ip(base), len.parse().expect("length")).expect("prefix")
}

fn interface(text: &str) -> InterfaceAddress {
    let (addr, len) = text.split_once('/').expect("length");
    InterfaceAddress { addr: ip(addr), prefix_len: len.parse().expect("length") }
}

fn keys_hex() -> String {
    encode_hex(&[0x11u8; PRIVATE_KEY_LEN])
}

fn section(name: &str, allowed: &[&str]) -> PeerSection {
    PeerSection {
        name: name.to_owned(),
        kem_public_key: encode_hex(&[0x22; 1184]),
        dh_public_key: encode_hex(&[0x33; 32]),
        psk: None,
        endpoint: None,
        allowed_ips: allowed.iter().map(|p| Ok(prefix(p))).collect(),
    }
}

fn roster(extra: Vec<PeerSection>) -> File {
    let mut bob = section("bob", &["10.99.0.2/32"]);
    bob.endpoint = Some(socket("192.0.2.20:51820"));
    let mut peers = vec![bob];
    peers.extend(extra);
    File {
        node: NodeSection {
            listen: socket("0.0.0.0:51820"),
            port_mapping: true,
            interface: "karst0".to_owned(),
            network_mode: NetworkMode::Tun,
            userspace_socks5_listen: None,
            userspace_publish: Vec::new(),
            addresses: vec![
                Ok(interface("10.99.0.1/24")),
                Ok(InterfaceAddress {
                    addr: IpAddr::V6(0xfd7a_5ea5_0000_0000_0000_0000_0000_0001),
                    prefix_len: 64,
                }),
            ],
            private_key_file: "node.key".to_owned(),
            psk_epoch: 7,
            nat64: Mode::Off,
        },
        peers,
        control: None,
    }
}

fn load(file: File) -> Result<Config, ConfigError> {
    Config::from_file(file, Ok(keys_hex()))
}

fn refused(result: Result<Config, ConfigError>) -> ConfigError {
    match result {
        Ok(_) => panic!("the configuration was accepted"),
        Err(e) => e,
    }
}

fn accepted(result: Result<Config, ConfigError>) -> Config {
    match result {
        Ok(config) => config,
        Err(e) => panic!("{}", e.to_text()),
    }
}

#[test]
fn loads_a_valid_roster() {
    let cfg = accepted(load(roster(vec![])));
    assert_eq!(cfg.listen.port, 51820);
    assert_eq!(cfg.interface, "karst0");
    assert_eq!(cfg.network_mode, NetworkMode::Tun);
    assert_eq!(cfg.psk_epoch, 7);
    assert_eq!(cfg.addresses.len(), 2);
    assert_eq!(cfg.peers.len(), 1);
    assert_eq!(cfg.peer_index("bob"), Some(0));
    assert_eq!(
        cfg.routes.route(ip("10.99.0.2")),
        Some(0),
        "the peer's address must route to it"
    );
    assert_eq!(cfg.peer_index("carol"), None);
    assert_eq!(cfg.keys.kem.0, [0x11; 64]);
    assert_eq!(cfg.keys.dh.0, [0x11; 32]);
}

#[test]
fn userspace_mode_is_an_explicit_configuration_choice() {
    let mut file = roster(vec![]);
    file.node.network_mode = NetworkMode::Userspace;
    file.node.userspace_socks5_listen = Some(socket("127.0.0.1:1080"));
    let cfg = accepted(load(file));
    assert_eq!(cfg.network_mode, NetworkMode::Userspace);
    assert_eq!(cfg.userspace_socks5_listen.expect("SOCKS listener").port, 1080);
    assert!(
        cfg.userspace_publish.is_empty(),
        "nothing is published unless it is asked for"
    );
}

fn node_with(
    mode: NetworkMode,
    socks5: Option<SocketAddr>,
    publish: &[(u16, &str)],
) -> Result<Config, ConfigError> {
    let mut file = roster(vec![]);
    file.node.network_mode = mode;
    file.node.userspace_socks5_listen = socks5;
    file.node.userspace_publish =
        publish.iter().map(|(port, to)| PublishSection { port: *port, to: socket(to) }).collect();
    load(file)
}

#[test]
fn a_published_port_names_one_overlay_port_and_one_destination() {
    let cfg = accepted(node_with(
        NetworkMode::Userspace,
        Some(socket("127.0.0.1:1080")),
        &[(8080, "127.0.0.1:80"), (5432, "127.0.0.1:5432")],
    ));
    let ports: Vec<u16> = cfg.userspace_publish.iter().map(|p| p.port).collect();
    assert_eq!(ports, vec![8080, 5432]);
    assert_eq!(
        cfg.userspace_publish.first().expect("first").to,
        socket("127.0.0.1:80")
    );
}

#[test]
fn publishing_alone_is_enough_to_attach_a_userspace_node() {
    let cfg = accepted(node_with(NetworkMode::Userspace, None, &[(8080, "127.0.0.1:80")]));
    assert_eq!(cfg.userspace_socks5_listen, None);
    assert_eq!(cfg.userspace_publish.len(), 1);
}

#[test]
fn a_userspace_node_with_no_attachment_at_all_is_refused() {
    let message = refused(node_with(NetworkMode::Userspace, None, &[])).to_text();
    assert!(
        message.contains("userspace_socks5_listen") && message.contains("userspace_publish"),
        "the refusal does not say what would fix it: {message}"
    );
}

#[test]
fn publishing_is_refused_for_the_configurations_that_cannot_honour_it() {
    for (label, mode, publish, expect) in [
        (
            "TUN mode has an interface and does not need this",
            NetworkMode::Tun,
            vec![(8080, "127.0.0.1:80")],
            "requires network_mode",
        ),
        (
            "port 0 is not a port anything connects to",
            NetworkMode::Userspace,
            vec![(0, "127.0.0.1:80")],
            "port 0",
        ),
        (
            "one port, two destinations",
            NetworkMode::Userspace,
            vec![(8080, "127.0.0.1:80"), (8080, "127.0.0.1:81")],
            "twice",
        ),
    ] {
        let message = match node_with(mode, None, &publish) {
            Ok(_) => panic!("{label}: accepted"),
            Err(e) => e.to_text(),
        };
        assert!(
            message.contains(expect),
            "{label}: the refusal does not mention {expect:?}: {message}"
        );
    }
}

#[test]
fn an_absent_psk_is_reported_as_the_fallback() {
    let cfg = accepted(load(roster(vec![])));
    assert!(cfg.peers.first().expect("one peer").psk_is_fallback);
    assert_eq!(cfg.peers.first().expect("one peer").psk.0, [0u8; 32]);
}

#[test]
fn refuses_a_key_file_others_can_read() {
    let seed = match check_permissions("node.key", 0o644) {
        Ok(()) => Ok(keys_hex()),
        Err(e) => Err(e),
    };
    match refused(Config::from_file(roster(vec![]), seed)) {
        ConfigError::Permissions { mode, .. } => assert_eq!(mode, 0o644),
        other => panic!("expected a permissions error, got {other:?}"),
    }
}

#[test]
fn refuses_a_readable_config_when_it_carries_psks() {
    let mut file = roster(vec![]);
    assert!(!Config::has_psk(&file));
    file.peers[0].psk = Some(encode_hex(&[0x44u8; 32]));
    assert!(Config::has_psk(&file));
    assert!(
        matches!(
            check_permissions("karstd.toml", 0o640),
            Err(ConfigError::Permissions { .. })
        ),
        "a group-readable config holding PSKs must be refused"
    );
    assert!(check_permissions("karstd.toml", 0o100600).is_ok());
}

#[test]
fn rejects_a_peer_with_no_allowed_ips() {
    let mut file = roster(vec![]);
    file.peers[0].allowed_ips = Vec::new();
    assert!(matches!(load(file), Err(ConfigError::Unusable(_))));
}

#[test]
fn rejects_two_peers_claiming_one_range() {
    let file = roster(vec![section("carol", &["10.99.0.2/32"])]);
    assert!(matches!(load(file), Err(ConfigError::Conflict(_))));
}

#[test]
fn rejects_duplicate_peer_names() {
    let file = roster(vec![section("bob", &["10.99.0.3/32"])]);
    assert!(matches!(load(file), Err(ConfigError::DuplicatePeerName(_))));
}

#[test]
fn rejects_a_key_of_the_wrong_length() {
    assert!(matches!(
        Config::from_file(roster(vec![]), Ok("aabbcc".to_owned())),
        Err(ConfigError::Hex { .. })
    ));
}

#[test]
fn debug_output_never_contains_key_material() {
    let psk = encode_hex(&[0x44u8; 32]);
    let mut file = roster(vec![]);
    file.peers[0].psk = Some(psk.clone());
    let cfg = accepted(load(file));
    assert_eq!(cfg.peers[0].psk.0, [0x44; 32]);
    let rendered = check_report(&cfg);
    assert!(!rendered.contains(&psk), "the PSK leaked into the report");
    assert!(
        !rendered.contains(&keys_hex()),
        "the private key leaked into the report"
    );
    assert!(rendered.contains("karst0"), "but it must still be useful");
}

#[test]
fn an_encapsulation_key_has_every_coefficient_below_the_modulus() {
    let good = vec![0x22; 1184];
    assert!(kem_key_valid(&good));
    assert!(!kem_key_valid(&good[1..]), "too short");
    for at in [0, 3, 1149] {
        // 3328 is the largest coefficient, 3329 the modulus itself.
        let mut first = good.clone();
        first[at..at + 3].copy_from_slice(&[0x00, 0x0d, 0x22]);
        assert!(kem_key_valid(&first));
        first[at] = 0x01;
        assert!(!kem_key_valid(&first), "first coefficient at {at}");
        let mut second = good.clone();
        second[at..at + 3].copy_from_slice(&[0x22, 0x02, 0xd0]);
        assert!(kem_key_valid(&second));
        second[at + 1] = 0x12;
        assert!(!kem_key_valid(&second), "second coefficient at {at}");
    }
    let mut tail = good;
    tail[1152..].copy_from_slice(&[0xff; 32]);
    assert!(kem_key_valid(&tail), "the closing bytes are no coefficients");
}

#[test]
fn a_peers_key_must_be_an_encoding() {
    let mut file = roster(vec![]);
    file.peers[0].kem_public_key = encode_hex(&[0xff; 1184]);
    match refused(load(file)) {
        ConfigError::InvalidKey { peer, field } => {
            assert_eq!(peer, "bob");
            assert_eq!(field, "kem_public_key");
        }
        other => panic!("{other:?}"),
    }
}

#[test]
fn a_malformed_range_names_its_peer() {
    let mut file = roster(vec![]);
    file.peers[0].allowed_ips.push(Err("no prefix length".to_owned()));
    match refused(load(file)) {
        ConfigError::Prefix { peer, source } => {
            assert_eq!(peer, "bob");
            assert_eq!(source, "no prefix length");
        }
        other => panic!("{other:?}"),
    }
}

fn wire_peer(id: &str, dns: &str, addr: &str) -> NetmapPeer {
    NetmapPeer {
        node_id: id.as_bytes().to_vec(),
        dns_name: dns.to_owned(),
        kem_public_key: vec![0x22; 1184],
        dh_public_key: vec![0x33; 32],
        psk: Some(Bytes([0x44; 32])),
        allowed_ips: vec![Ok(prefix(&format!("{addr}/32")))],
        endpoint: None,
        disco_key: Some(Bytes([0x46; 32])),
        home_relay: Vec::new(),
    }
}

fn netmap(addresses: &[&str], peers: Vec<NetmapPeer>, filter: Vec<FilterRule>) -> Netmap {
    Netmap {
        addresses: addresses.iter().map(|a| Ok(interface(a))).collect(),
        peers,
        relays: Vec::new(),
        psk_epoch: 5,
        node_id: b"self".to_vec(),
        packet_filter: filter,
        egress_filter: Vec::new(),
        ssh_filter: Vec::new(),
        ssh_filter_present: false,
    }
}

fn local() -> LocalSettings {
    LocalSettings {
        keys: KeySeeds { kem: Bytes([0x11; 64]), dh: Bytes([0x12; 32]) },
        listen: socket("0.0.0.0:51820"),
        port_mapping: true,
        interface: "karst0".to_owned(),
        network_mode: NetworkMode::Tun,
        userspace_socks5_listen: None,
        userspace_publish: Vec::new(),
        nat64: None,
        relay_ca_file: None,
    }
}

fn rule(src: &str, port: u32) -> FilterRule {
    FilterRule {
        srcs: vec![src.to_owned()],
        ports: vec![WirePortRange { first: port, last: port }],
    }
}

fn tcp(port: u16) -> Packet {
    let addresses = Addresses { source: IpAddr::V4(0), destination: IpAddr::V4(0) };
    Packet {
        ports: Some(Ports { protocol: 6, source: 0, destination: port }),
        addresses: Some(addresses),
        destination: Some(addresses.destination),
    }
}

#[test]
fn a_peers_published_home_relay_reaches_the_roster() {
    let mut peer = wire_peer("aaa", "alpha", "100.64.0.2");
    peer.home_relay = vec![0x7C; 32];
    let map = netmap(&["100.64.0.1/16"], vec![peer], vec![]);
    let cfg = accepted(Config::from_netmap(local(), &map));
    assert_eq!(cfg.peers[0].home_relay, Some(Bytes([0x7C; 32])));
}

#[test]
fn a_peer_that_published_no_relay_has_none() {
    let map = netmap(
        &["100.64.0.1/16"],
        vec![wire_peer("aaa", "alpha", "100.64.0.2")],
        vec![],
    );
    let cfg = accepted(Config::from_netmap(local(), &map));
    assert_eq!(cfg.peers[0].home_relay, None);
}

#[test]
fn a_home_relay_of_the_wrong_width_is_dropped() {
    for width in [1_usize, 31, 33, 64] {
        let mut peer = wire_peer("aaa", "alpha", "100.64.0.2");
        peer.home_relay = vec![0x7C; width];
        let map = netmap(&["100.64.0.1/16"], vec![peer], vec![]);
        let cfg = accepted(Config::from_netmap(local(), &map));
        assert_eq!(
            cfg.peers[0].home_relay, None,
            "a {width}-byte relay id was accepted"
        );
    }
}

#[test]
fn a_netmap_becomes_a_routable_configuration() {
    let map = netmap(
        &["100.64.0.1/16"],
        vec![wire_peer("aaa", "alpha", "100.64.0.2")],
        vec![],
    );
    let cfg = accepted(Config::from_netmap(local(), &map));

    assert_eq!(cfg.psk_epoch, 5, "the epoch comes from the netmap");
    assert_eq!(cfg.peers.len(), 1);
    assert_eq!(cfg.peer_index("alpha"), Some(0), "named by its DNS label");
    assert_eq!(
        cfg.routes.route(ip("100.64.0.2")),
        Some(0),
        "the peer's address must route to it"
    );
    assert!(
        cfg.routes.permits(0, ip("100.64.0.2")),
        "and it must be entitled to source from it"
    );
    assert!(!cfg.peers[0].psk_is_fallback);
}

#[test]
fn the_interface_address_keeps_the_prefix_the_server_sent() {
    let map = netmap(
        &["100.64.0.1/16"],
        vec![wire_peer("aaa", "alpha", "100.64.9.9")],
        vec![],
    );
    let cfg = accepted(Config::from_netmap(local(), &map));

    let addr = cfg.addresses.first().expect("one address");
    assert_eq!(addr.prefix_len, 16, "the on-link prefix must survive");
    assert_eq!(
        addr.addr,
        ip("100.64.0.1"),
        "and the host bits must not be masked off"
    );
    assert!(
        addr.network().contains(ip("100.64.9.9")),
        "a peer must be on-link, or nothing routes"
    );
}

#[test]
fn a_netmap_with_no_address_is_refused() {
    let map = netmap(&[], vec![wire_peer("aaa", "alpha", "100.64.0.2")], vec![]);
    assert!(matches!(
        Config::from_netmap(local(), &map),
        Err(ConfigError::Unusable(_))
    ));
}

#[test]
fn a_peer_without_a_psk_is_flagged_as_lattice_only() {
    let mut wire = wire_peer("aaa", "alpha", "100.64.0.2");
    wire.psk = None;
    let map = netmap(&["100.64.0.1/16"], vec![wire], vec![]);
    let cfg = accepted(Config::from_netmap(local(), &map));

    assert!(cfg.peers[0].psk_is_fallback);
    assert_eq!(cfg.peers[0].psk.0, [0u8; 32]);
}

#[test]
fn the_filter_is_compiled_against_the_peer_order() {
    let map = netmap(
        &["100.64.0.1/16"],
        vec![
            wire_peer("aaa", "alpha", "100.64.0.2"),
            wire_peer("bbb", "beta", "100.64.0.3"),
        ],
        vec![rule("bbb", 22)],
    );
    let cfg = accepted(Config::from_netmap(local(), &map));

    assert_eq!(cfg.peer_index("beta"), Some(1));
    assert!(
        cfg.filter.ingress(1, &tcp(22)).permitted(),
        "the rule names beta, which is peer 1"
    );
    assert!(
        !cfg.filter.ingress(0, &tcp(22)).permitted(),
        "and must not apply to alpha, which is peer 0"
    );
}

#[test]
fn a_netmap_always_enforces_even_with_no_rules() {
    let map = netmap(
        &["100.64.0.1/16"],
        vec![wire_peer("aaa", "alpha", "100.64.0.2")],
        vec![],
    );
    let cfg = accepted(Config::from_netmap(local(), &map));
    assert!(
        cfg.filter.is_enforcing(),
        "a server-managed node always enforces; an empty rule set is deny-all"
    );
    assert!(
        !accepted(load(roster(vec![]))).filter.is_enforcing(),
        "a roster has no policy source"
    );
}

#[test]
fn a_peer_without_a_dns_label_is_named_from_its_handle() {
    let map = netmap(
        &["100.64.0.1/16"],
        vec![wire_peer("handle-xyz", "", "100.64.0.2")],
        vec![],
    );
    let cfg = accepted(Config::from_netmap(local(), &map));
    assert_eq!(cfg.peers[0].name, "node-handle-x");
}

#[test]
fn two_peers_claiming_one_range_is_refused() {
    let map = netmap(
        &["100.64.0.1/16"],
        vec![
            wire_peer("aaa", "alpha", "100.64.0.2"),
            wire_peer("bbb", "beta", "100.64.0.2"),
        ],
        vec![],
    );
    assert!(matches!(
        Config::from_netmap(local(), &map),
        Err(ConfigError::Conflict(_))
    ));
}

#[test]
fn a_control_configuration_is_not_loadable_as_a_roster() {
    let mut file = roster(vec![]);
    file.peers = Vec::new();
    file.node.addresses = Vec::new();
    file.control = Some(ControlSection {
        server: "https://karst.example.com".to_owned(),
        server_kem_pin: "aabb".to_owned(),
        server_verify_pin: "ccdd".to_owned(),
        identity_key_file: "identity.key".to_owned(),
        setup_key: None,
        cache_file: None,
        relay_ca_file: None,
    });
    match refused(load(file)) {
        ConfigError::Unusable(m) => assert!(m.contains("from_netmap"), "{m}"),
        other => panic!("expected a refusal, got {other:?}"),
    }
}

#[test]
fn an_unusable_peer_is_skipped_rather_than_taking_the_netmap_down() {
    let mut broken = wire_peer("bbb", "broken", "100.64.0.3");
    broken.kem_public_key = vec![0xFF; 1184];

    let map = netmap(
        &["100.64.0.1/16"],
        vec![wire_peer("aaa", "alpha", "100.64.0.2"), broken],
        vec![],
    );
    let cfg = accepted(Config::from_netmap(local(), &map));

    assert_eq!(cfg.peers.len(), 1, "the usable peer must survive");
    assert_eq!(cfg.peers[0].name, "alpha");
    assert_eq!(cfg.skipped.len(), 1);
    assert_eq!(cfg.skipped[0].dns_name, "broken");
    assert!(cfg.skipped[0].reason.contains("kem_public_key"));

    assert_eq!(
        cfg.routes.route(ip("100.64.0.2")),
        Some(0),
        "and the surviving peer must still route"
    );
    assert_eq!(
        cfg.routes.route(ip("100.64.0.3")),
        None,
        "while the skipped peer claims nothing"
    );
}

#[test]
fn skipping_a_peer_does_not_misalign_the_filter() {
    let mut broken = wire_peer("aaa", "broken", "100.64.0.2");
    broken.dh_public_key = vec![0x01; 8];

    let map = netmap(
        &["100.64.0.1/16"],
        vec![broken, wire_peer("bbb", "beta", "100.64.0.3")],
        vec![rule("bbb", 22), rule("aaa", 80)],
    );
    let cfg = accepted(Config::from_netmap(local(), &map));

    assert_eq!(cfg.peers.len(), 1);
    assert_eq!(cfg.peer_index("beta"), Some(0), "beta moved up to index 0");
    assert!(
        cfg.filter.ingress(0, &tcp(22)).permitted(),
        "the rule naming beta must follow it to its new index"
    );
    assert!(
        !cfg.filter.ingress(0, &tcp(80)).permitted(),
        "and the rule naming the dropped peer must not apply to beta"
    );
}

#[test]
fn a_skipped_peer_is_still_reported_as_held() {
    let mut broken = wire_peer("bbb", "broken", "100.64.0.3");
    broken.kem_public_key = vec![0xFF; 1184];
    let map = netmap(
        &["100.64.0.1/16"],
        vec![wire_peer("aaa", "alpha", "100.64.0.2"), broken],
        vec![],
    );
    let cfg = accepted(Config::from_netmap(local(), &map));

    assert_eq!(cfg.peers.len(), 1);
    assert_eq!(
        map.peers.len(),
        2,
        "the node holds the entry even though it cannot use it; \
         claiming otherwise would make the server resend it for ever"
    );
}

fn managed(kem_pin: &str) -> File {
    let mut file = roster(Vec::new());
    file.peers.clear();
    file.node.addresses.clear();
    file.control = Some(ControlSection {
        server: "https://karst.example.com".to_owned(),
        server_kem_pin: kem_pin.to_owned(),
        server_verify_pin: encode_hex(&[0x02; 1952]),
        identity_key_file: "identity.key".to_owned(),
        setup_key: None,
        cache_file: None,
        relay_ca_file: None,
    });
    file
}

fn held() -> Netmap {
    netmap(&["100.64.0.1/16"], vec![wire_peer("aaa", "alpha", "100.64.0.2")], Vec::new())
}

fn client_of(file: &File) -> Result<Client, Error> {
    let section = file.control.as_ref().expect("control");
    let keys = load_keys(Ok(keys_hex())).ok().expect("keys");
    Client::new(section, Ok(Identity::from_seed(&Bytes([7; 32]))), None, &keys)
}

fn outage() -> Result<Netmap, Error> {
    Err(Error::Server("unreachable".to_owned()))
}

#[test]
fn the_public_halves_follow_the_seeds() {
    let mut dh = [0u8; 32];
    dh[0] = 9;
    let (kem, public) = KeySeeds { kem: Bytes([0x11; 64]), dh: Bytes(dh) }.public_keys();
    // The first iteration of RFC 7748, section 5.2.
    assert_eq!(
        encode_hex(&public.0),
        "422c8e7a6227d7bca1350b3e2bb7279f7897b87bb6854b783c60e80311ae3079"
    );
    assert!(kem_key_valid(&kem), "a peer takes the key that a node announces");
    let (other, _) = KeySeeds { kem: Bytes([0x12; 64]), dh: Bytes(dh) }.public_keys();
    assert_eq!(other.len(), 1184);
    assert_ne!(kem, other);
}

#[test]
fn a_mistyped_pin_stops_the_start_whatever_netmap_there_is() {
    for pin in ["aabb", "aab", "zz"] {
        for synced in [Ok(held()), outage()] {
            let client = client_of(&managed(pin));
            let loaded =
                load_config(managed(pin), Ok(keys_hex()), client, None, None, synced, Some(held()));
            match loaded {
                Err(Error::Key(m)) => assert!(m.contains("server_kem_pin"), "{m}"),
                _ => panic!("the pin {pin:?} was accepted"),
            }
        }
    }
}

#[test]
fn a_managed_node_comes_up_on_its_cache_when_the_server_is_away() {
    let pin = encode_hex(&[0x01; 1184]);
    let client = || client_of(&managed(&pin));
    let load = |client, synced, cache| {
        load_config(managed(&pin), Ok(keys_hex()), client, None, None, synced, cache)
    };
    let Ok((config, source, kept)) = load(client(), outage(), Some(held())) else {
        panic!("the cache was not used");
    };
    assert_eq!(source, Source::Server { origin: Origin::Cache, peers: 1 });
    assert_eq!(config.peers[0].name, "alpha");
    let kept = kept.expect("the client");
    assert_eq!((kept.kem_public.len(), kept.dh_public.len()), (1184, 32));

    let Ok((_, source, kept)) = load(client(), Ok(held()), None) else {
        panic!("the netmap was not used");
    };
    assert_eq!(source, Source::Server { origin: Origin::Server, peers: 1 });
    assert!(kept.is_some(), "a managed node keeps its client");

    match load(client(), outage(), None) {
        Err(Error::Server(m)) => assert_eq!(m, "unreachable"),
        _ => panic!("a node came up without a netmap"),
    }
    match load(Err(Error::Key("no identity".to_owned())), Ok(held()), None) {
        Err(Error::Key(m)) => assert_eq!(m, "no identity"),
        _ => panic!("a node came up without a client"),
    }
    let prefix = Nat64Prefix::new(0x0064_ff9b << 96, 96);
    assert!(prefix.is_some());
    let file = roster(Vec::new());
    let none = Err(Error::Server("not asked".to_owned()));
    match load_config(file, Ok(keys_hex()), none, None, prefix, outage(), None) {
        Ok((config, Source::Roster, None)) => assert_eq!(config.nat64, prefix),
        _ => panic!("a roster needs no server"),
    }
}

#[test]
fn a_roster_entry_takes_the_key_and_the_ranges_of_its_peer() {
    let config = accepted(Config::from_netmap(local(), &held()));
    let entry = RosterEntry::of(&config.peers[0], Bytes([9; 32]), None);
    assert_eq!(entry.psk, Bytes([0x44; 32]));
    assert_eq!(entry.addresses, vec![prefix("100.64.0.2/32")]);
    assert_eq!(entry.hint, Bytes([9; 32]));
    assert_eq!(entry.home_relay, None);
}

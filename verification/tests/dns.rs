//! Mesh names: the zone, the host integration and the userspace listener.

use karstd::addr::{IpAddr, SocketAddr};
use karstd::dns::{
    bare_address, from_config, from_netmap, host_resolvers, host_words, needs_host, reconcile,
    revert_host, userspace_handle_wire, Attempt, Decision, DnsConfig, DnsSettings, Error, Event, Forward,
    Handling, HostAction, HostIntegration, HostRuntime, Named, NamedPeer, NetmapRoute, PeerAddress,
    Runtime, TcpStep, Undo,
};
use karstd::ipc::Platform;

fn stub() -> SocketAddr {
    SocketAddr::new(IpAddr::v4(127, 0, 0, 54), 53)
}

fn settings(host_integration: HostIntegration) -> DnsSettings {
    DnsSettings {
        enabled: true,
        host_integration,
        stub_address: stub(),
        upstream: Vec::new(),
        accept_netmap_config: true,
    }
}

fn magic() -> DnsConfig {
    DnsConfig {
        zone: "aquifer.karst".to_owned(),
        magic_dns: true,
        nameservers: Vec::new(),
        search_domains: Vec::new(),
        routes: Vec::new(),
    }
}

#[test]
fn revert_host_is_a_no_op_when_host_integration_is_none() {
    assert_eq!(revert_host(HostIntegration::Off, false), Undo::Nothing);
}

#[test]
fn revert_host_is_a_no_op_for_a_link_scoped_mechanism_with_no_interface() {
    for integration in [HostIntegration::Resolved, HostIntegration::Networkmanager] {
        assert_eq!(
            revert_host(integration, false),
            Undo::Nothing,
            "a gone interface already lost its link-scoped DNS state"
        );
        assert_eq!(revert_host(integration, true), Undo::Linked);
    }
}

#[test]
fn the_resolver_directory_mechanism_is_refused_off_macos() {
    let error = match HostRuntime::new(HostIntegration::Macos, Platform::Linux, &vec![]) {
        Attempt::Failed(error) => error,
        Attempt::Try(_) => panic!("/etc/resolver is not a mechanism on this platform"),
    };
    assert!(error.contains("/etc/resolver"), "{error}");
    assert_eq!(
        revert_host(HostIntegration::Macos, true),
        Undo::Unlinked,
        "reverting it selects the mechanism again, and so reports the same refusal"
    );
}

#[test]
fn auto_selects_the_resolver_directory_on_macos() {
    let host = match HostRuntime::new(HostIntegration::Auto, Platform::MacOs, &vec![]) {
        Attempt::Try(host) => host,
        Attempt::Failed(error) => panic!("{error}"),
    };
    assert_eq!(host.mechanism(), "/etc/resolver");
    assert_eq!(host.observe(false), "not configured");
}

#[test]
fn every_mechanism_names_itself() {
    assert_eq!(HostRuntime::Off.mechanism(), "none");
    assert_eq!(HostRuntime::Macos.mechanism(), "/etc/resolver");
}

#[test]
fn auto_goes_on_to_the_next_mechanism() {
    let mut failures = Vec::new();
    let mut tried = Vec::new();
    while let Attempt::Try(host) = HostRuntime::new(HostIntegration::Auto, Platform::Linux, &failures)
    {
        tried.push(host);
        failures.push(format!("attempt {}", failures.len()));
    }
    assert_eq!(
        tried,
        vec![HostRuntime::Resolved, HostRuntime::NetworkManager, HostRuntime::ResolvConf]
    );
    match HostRuntime::new(HostIntegration::Auto, Platform::Linux, &failures) {
        Attempt::Failed(error) => assert_eq!(error, "attempt 2"),
        Attempt::Try(_) => panic!("every mechanism has failed"),
    }
}

fn beta() -> NamedPeer {
    NamedPeer {
        dns_name: "beta".to_owned(),
        allowed_ips: vec![
            PeerAddress {
                text: "100.64.0.2/32".to_owned(),
                address: Some(IpAddr::v4(100, 64, 0, 2)),
            },
            PeerAddress {
                text: "fd00::2/128".to_owned(),
                address: Some(IpAddr::V6(0xfd00_0000_0000_0000_0000_0000_0000_0002)),
            },
        ],
    }
}

#[test]
fn netmap_peer_addresses_become_mesh_records() {
    assert_eq!(bare_address("100.64.0.2/32"), "100.64.0.2");
    let resolver = match from_netmap(&magic(), &vec![beta()], None) {
        Ok(resolver) => resolver,
        Err(e) => panic!("{}", e.to_text()),
    };
    assert_eq!(resolver.zone, "aquifer.karst");
    assert!(resolver.magic_dns);
    assert_eq!(resolver.peers.len(), 1);
    assert_eq!(resolver.peers[0].name, "beta");
    assert_eq!(resolver.peers[0].ipv4, vec![IpAddr::v4(100, 64, 0, 2)]);
    assert_eq!(
        resolver.peers[0].ipv6,
        vec![IpAddr::V6(0xfd00_0000_0000_0000_0000_0000_0000_0002)]
    );
}

#[test]
fn a_malformed_netmap_says_what_is_malformed() {
    let mut config = magic();
    config.nameservers = vec![Named { text: "not an address".to_owned(), address: None }];
    match from_netmap(&config, &vec![], None) {
        Err(e) => assert_eq!(
            e.to_text(),
            "netmap DNS resolver \"not an address\" is not an IP socket address"
        ),
        Ok(_) => panic!("a resolver that is no address was accepted"),
    }
    let mut peer = beta();
    peer.allowed_ips[1].address = None;
    match from_netmap(&magic(), &vec![peer], None) {
        Err(Error::Address { peer, value }) => {
            assert_eq!(peer, "beta");
            assert_eq!(value, "fd00::2/128");
        }
        _ => panic!("an address that is none was accepted"),
    }
    let mut config = magic();
    config.routes = vec![NetmapRoute {
        match_domain: "internal.example".to_owned(),
        resolvers: vec![Named { text: "x\"y".to_owned(), address: None }],
    }];
    match from_netmap(&config, &vec![], None) {
        Err(e) => assert!(e.to_text().contains("\"x\\\"y\""), "{}", e.to_text()),
        Ok(_) => panic!("a resolver that is no address was accepted"),
    }
}

#[test]
fn the_hosts_resolvers_are_asked_only_where_nothing_else_is_named() {
    assert!(needs_host(&settings(HostIntegration::Auto), &magic()));
    let mut own = settings(HostIntegration::Auto);
    own.upstream = vec![stub()];
    assert!(!needs_host(&own, &magic()));
    let mut off = magic();
    off.magic_dns = false;
    assert!(!needs_host(&settings(HostIntegration::Auto), &off));
}

#[test]
fn the_host_file_is_read_word_by_word() {
    let words = host_words(b"search example.com\nnameserver 192.0.2.1\nnameserver 127.0.0.54\n");
    assert_eq!(words, vec!["192.0.2.1", "127.0.0.54"]);
    let mangled = host_words(b"nameserver 192.0.2.\xff\n");
    assert_eq!(mangled, vec!["192.0.2.\u{fffd}"]);

    let parsed = vec![
        PeerAddress { text: "192.0.2.1".to_owned(), address: Some(IpAddr::v4(192, 0, 2, 1)) },
        PeerAddress { text: "127.0.0.54".to_owned(), address: Some(stub().ip) },
    ];
    match host_resolvers(&parsed, stub().ip) {
        Ok(list) => assert_eq!(
            list,
            vec![SocketAddr::new(IpAddr::v4(192, 0, 2, 1), 53)],
            "the stub does not forward to itself"
        ),
        Err(e) => panic!("{}", e.to_text()),
    }
}

#[test]
fn a_failed_rebuild_leaves_the_service_alone() {
    match reconcile(Ok(None), true) {
        Ok(replacement) => assert!(replacement.resolver.is_none() && replacement.userspace),
        Err(e) => panic!("{e}"),
    }
    assert!(reconcile(Err(Error::Resolver { value: "x".to_owned() }), false).is_err());
    match reconcile(Err(Error::Config("zone has no name".to_owned())), true) {
        Err(e) => assert_eq!(e, "zone has no name"),
        Ok(_) => panic!("a resolver that cannot be built would replace a running one"),
    }
}

#[test]
fn what_the_resolvers_configuration_refuses_is_reported_as_it_says() {
    let refused = || Some("\"..\" is no domain".to_owned());
    match from_netmap(&magic(), &vec![beta()], refused()) {
        Err(Error::Config(m)) => assert_eq!(m, "\"..\" is no domain"),
        _ => panic!("a refused netmap was accepted"),
    }
    let mut unreadable = magic();
    unreadable.nameservers = vec![Named { text: "x".to_owned(), address: None }];
    match from_netmap(&unreadable, &vec![], refused()) {
        Err(Error::Resolver { value }) => assert_eq!(value, "x"),
        _ => panic!("what cannot be read comes first"),
    }

    let settings = settings(HostIntegration::Auto);
    let peers = Vec::new();
    let host = || Ok(vec![SocketAddr::new(IpAddr::v4(192, 0, 2, 1), 53)]);
    match from_config(&settings, &magic(), &peers, host(), refused()) {
        Err(e) => assert_eq!(e.to_text(), "\"..\" is no domain"),
        Ok(_) => panic!("a refused configuration was accepted"),
    }
    match from_config(&settings, &magic(), &peers, host(), None) {
        Ok(Some(resolver)) => {
            assert_eq!(resolver.nameservers, vec![SocketAddr::new(IpAddr::v4(192, 0, 2, 1), 53)]);
            assert_eq!(resolver.zone, "aquifer.karst");
        }
        _ => panic!("a configuration that nobody refuses was not built"),
    }
    let mut off = magic();
    off.magic_dns = false;
    assert!(matches!(from_config(&settings, &off, &peers, host(), refused()), Ok(None)));
}

#[test]
fn the_link_follows_the_zone() {
    let on = settings(HostIntegration::Resolved);
    match HostRuntime::Resolved.update(&on, &magic()) {
        HostAction::Apply { stub: at, zone, .. } => {
            assert_eq!(at, stub());
            assert_eq!(zone, "aquifer.karst");
        }
        other => panic!("{other:?}"),
    }
    let mut off = magic();
    off.magic_dns = false;
    assert!(matches!(HostRuntime::Resolved.update(&on, &off), HostAction::Revert));
    assert!(matches!(HostRuntime::Off.update(&on, &magic()), HostAction::Nothing));
    assert!(matches!(HostRuntime::ResolvConf.shutdown(), HostAction::Shutdown));
    assert_eq!(HostRuntime::link_index(Some(7)), Ok(7));
    assert!(HostRuntime::link_index(None).is_err());
    assert!(HostRuntime::link_index(Some(0x8000_0000)).is_err());
}

#[test]
fn userspace_listener_serves_dns_over_tcp() {
    let query = vec![0u8, 42, 1, 0, 0, 1];
    let mut framed = u16::try_from(query.len()).expect("DNS query length").to_be_bytes().to_vec();
    framed.extend_from_slice(&query);

    let mut runtime = Runtime::start_userspace();
    assert_eq!(runtime.poll(true, false, true), TcpStep::Receive);
    // A request may arrive in any number of pieces.
    assert_eq!(runtime.received(&framed[..1]), None);
    assert_eq!(runtime.received(&framed[1..5]), None);
    assert_eq!(runtime.received(&framed[5..]), Some(query.clone()));

    let response = Runtime::answer(Some(vec![0, 42, 0x81]), None).expect("an answer");
    assert_eq!(Runtime::reply(&response), Some(vec![0, 3, 0, 42, 0x81]));
    assert_eq!(Runtime::reply(&vec![0; 65536]), None, "no length prefix is that long");
    assert_eq!(runtime.poll(false, false, false), TcpStep::Listen);
    assert_eq!(runtime.poll(false, true, false), TcpStep::Wait);
}

#[test]
fn userspace_split_dns_reaches_an_overlay_only_resolver() {
    let overlay = SocketAddr::new(IpAddr::v4(100, 64, 0, 3), 53);
    let decision = Decision::Forward { resolvers: vec![overlay], split: true };
    let resolvers = match userspace_handle_wire(decision) {
        Handling::Overlay(resolvers) => resolvers,
        _ => panic!("a split route is asked over the overlay"),
    };
    let mut forward = Forward::userspace_forward(resolvers);
    assert_eq!(forward.target(), Ok(overlay));
    let stranger = SocketAddr::new(IpAddr::v4(100, 64, 0, 9), 53);
    assert!(!forward.happened(Event::Received { source: stranger, matches: true }));
    assert!(!forward.happened(Event::Received { source: overlay, matches: false }));
    assert!(forward.happened(Event::Received { source: overlay, matches: true }));

    let global = Decision::Forward { resolvers: vec![overlay], split: false };
    assert!(matches!(userspace_handle_wire(global), Handling::Host));
}

#[test]
fn a_silent_resolver_gives_way_to_the_next() {
    let first = SocketAddr::new(IpAddr::v4(100, 64, 0, 3), 53);
    let second = SocketAddr::new(IpAddr::v4(100, 64, 0, 4), 53);
    let mut forward = Forward::userspace_forward(vec![first, second]);
    assert!(!forward.happened(Event::TimedOut));
    assert_eq!(forward.target(), Ok(second));
    assert!(!forward.happened(Event::SendFailed("no route".to_owned())));
    assert!(forward.target().is_err());
}

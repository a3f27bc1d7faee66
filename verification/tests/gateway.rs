//! Forwarding policy of a gateway.

use karstd::addr::IpAddr;
use karstd::gateway::{nft_string, Command, Manager, Offer, Reply, Role, Ruleset};
use karstd::routing::{InterfaceAddress, Prefix};

#[test]
fn nft_strings_cannot_inject_another_statement() {
    assert_eq!(
        nft_string("x\"; delete table inet filter"),
        "\"x\\\"; delete table inet filter\""
    );
}

fn v4(a: u8, b: u8, c: u8, d: u8, len: u8) -> Prefix {
    Prefix::new(IpAddr::v4(a, b, c, d), len).expect("prefix")
}

fn v6_subnet() -> Prefix {
    Prefix::new(IpAddr::V6(0x2001_0db8_0050_0000_0000_0000_0000_0000), 64).expect("prefix")
}

fn offer(id: &str, prefix: Prefix, role: Role, masquerade: bool) -> Offer {
    Offer { route_id: id.to_owned(), prefix, masquerade, role }
}

fn addresses() -> Vec<InterfaceAddress> {
    vec![
        InterfaceAddress { addr: IpAddr::v4(100, 64, 0, 7), prefix_len: 16 },
        InterfaceAddress {
            addr: IpAddr::V6(0xfd7a_115c_a1e0_0000_0000_0000_0000_0007),
            prefix_len: 64,
        },
    ]
}

#[test]
fn only_gateway_offers_become_forwarding_grants() {
    let offers = vec![
        offer("lan", v4(192, 168, 50, 0, 24), Role::Gateway, true),
        offer("not-mine", v4(10, 0, 0, 0, 8), Role::Recipient, true),
        offer("v6", v6_subnet(), Role::Gateway, false),
    ];
    let rules = Ruleset::from_config(&offers, &addresses());
    assert_eq!(rules.grants.len(), 2);
    assert!(rules.ipv4 && rules.ipv6);
    assert_eq!(rules.grants[0].sources.len(), 1);
}

#[test]
fn generated_rules_are_scoped_and_masquerade_only_when_requested() {
    let offers = vec![
        offer("lan", v4(192, 168, 50, 0, 24), Role::Gateway, true),
        offer("v6", v6_subnet(), Role::Gateway, false),
    ];
    let batch = Ruleset::from_config(&offers, &addresses()).nft_batch("karst0");
    assert!(
        batch.contains("iifname \"karst0\" ip saddr 100.64.0.0/16 ip daddr 192.168.50.0/24")
    );
    assert!(batch.contains("ip daddr 192.168.50.0/24 counter masquerade"));
    assert!(!batch.contains("ip6 daddr 2001:db8:50::/64 counter masquerade"));
    assert!(batch.ends_with("iifname \"karst0\" counter drop\n"));
    assert!(!batch.contains("flush ruleset"));
}

const IPV4_FORWARD: &str = "/proc/sys/net/ipv4/ip_forward";

/// A host with two forwarding switches, whose `nft` may refuse a batch.
#[derive(Default)]
struct Host {
    v4: bool,
    v6: bool,
    writes: Vec<(String, String)>,
    nft: Vec<(Vec<String>, Option<String>)>,
    fail_batch: bool,
}

impl Host {
    fn perform(&mut self, command: Command) -> Reply {
        match command {
            Command::Read { path } => {
                let enabled = if path == IPV4_FORWARD { self.v4 } else { self.v6 };
                Reply::Success(if enabled { "1\n" } else { "0\n" }.to_owned())
            }
            Command::Write { path, value } => {
                if path == IPV4_FORWARD {
                    self.v4 = value.trim() == "1";
                } else {
                    self.v6 = value.trim() == "1";
                }
                self.writes.push((path, value));
                Reply::Success(String::new())
            }
            Command::Nft { args, input } => {
                let refused = self.fail_batch && input.is_some();
                self.nft.push((args, input));
                if refused {
                    Reply::Failure("synthetic nft failure".to_owned())
                } else {
                    Reply::Success(String::new())
                }
            }
        }
    }

    fn run(&mut self, manager: &mut Manager) -> Result<(), String> {
        while let Some(command) = manager.next() {
            let reply = self.perform(command);
            manager.report(reply);
        }
        match manager.failure() {
            Some(message) => Err(message),
            None => Ok(()),
        }
    }
}

#[test]
fn runtime_owns_only_forwarding_values_it_changed() {
    let offers = vec![offer("lan", v4(192, 168, 50, 0, 24), Role::Gateway, true)];
    let rules = Ruleset::from_config(&offers, &addresses());
    let mut host = Host { v4: true, ..Host::default() };
    let mut manager = Manager::default();

    manager.reconcile(&rules, "karst0");
    host.run(&mut manager).unwrap();
    assert!(manager.active());
    assert!(
        host.writes.is_empty(),
        "pre-existing v4 forwarding is not ours"
    );
    manager.clear();
    host.run(&mut manager).unwrap();
    assert!(!manager.active());
    assert!(host.v4, "cleanup preserves pre-existing forwarding");
    assert!(host.nft.iter().all(|(_, input)| {
        input.as_deref().map_or(true, |batch| !batch.contains("flush ruleset"))
    }));
}

#[test]
fn a_failed_atomic_batch_rolls_back_the_forwarding_knob() {
    let offers = vec![offer("lan", v4(192, 168, 50, 0, 24), Role::Gateway, false)];
    let rules = Ruleset::from_config(&offers, &addresses());
    let mut host = Host { fail_batch: true, ..Host::default() };
    let mut manager = Manager::default();

    manager.reconcile(&rules, "karst0");
    assert!(host.run(&mut manager).is_err());
    assert!(!host.v4);
    assert_eq!(
        host.writes,
        vec![
            (IPV4_FORWARD.to_owned(), "1\n".to_owned()),
            (IPV4_FORWARD.to_owned(), "0\n".to_owned()),
        ]
    );
}

#[test]
fn grants_come_out_in_the_order_of_their_routes() {
    let offers = vec![
        offer("b", v4(192, 168, 50, 0, 24), Role::Gateway, true),
        offer("a", v4(10, 0, 0, 0, 8), Role::Gateway, true),
    ];
    let rules = Ruleset::from_config(&offers, &addresses());
    let names: Vec<&str> = rules.grants.iter().map(|g| g.route_id.as_str()).collect();
    assert_eq!(names, vec!["a", "b"]);
}

#[test]
fn an_empty_set_takes_everything_down() {
    let offers = vec![offer("lan", v4(192, 168, 50, 0, 24), Role::Gateway, true)];
    let rules = Ruleset::from_config(&offers, &addresses());
    let mut host = Host::default();
    let mut manager = Manager::default();
    manager.reconcile(&rules, "karst0");
    host.run(&mut manager).unwrap();
    assert!(host.v4 && manager.active());
    let loaded: Vec<&String> = host.nft.iter().filter_map(|(_, input)| input.as_ref()).collect();
    assert_eq!(loaded, vec![&rules.nft_batch("karst0")]);

    let none = Ruleset::default();
    assert!(none.is_empty());
    manager.reconcile(&none, "karst0");
    host.run(&mut manager).unwrap();
    assert!(!host.v4 && !manager.active());
}

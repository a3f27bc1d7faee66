//! Prefixes, routes, address text and randomness.

use karstd::addr::{IpAddr, SocketAddr};
use karstd::random::{nonce, nonce_of, private_key_seed, random_seed, seed_of};
use karstd::routing::{AllowedIps, Conflict, InterfaceAddress, Prefix};

fn prefix(a: u8, b: u8, c: u8, d: u8, len: u8) -> Prefix {
    Prefix::new(IpAddr::v4(a, b, c, d), len).expect("prefix")
}

#[test]
fn a_prefix_is_masked_and_bounded() {
    assert_eq!(prefix(10, 50, 1, 77, 24), prefix(10, 50, 1, 0, 24));
    assert_eq!(prefix(10, 50, 1, 0, 24).to_text(), "10.50.1.0/24");
    assert_eq!(Prefix::new(IpAddr::v4(10, 0, 0, 0), 33), None);
    assert_eq!(Prefix::new(IpAddr::V6(0), 129), None);
    assert!(prefix(0, 0, 0, 0, 0).contains(IpAddr::v4(203, 0, 113, 1)));
    assert!(!prefix(0, 0, 0, 0, 0).contains(IpAddr::V6(1)), "families never cross");
}

#[test]
fn the_longest_prefix_wins() {
    let table = AllowedIps::build(vec![
        (prefix(10, 0, 0, 0, 8), 0),
        (prefix(10, 1, 0, 0, 16), 1),
        (prefix(10, 1, 2, 3, 32), 2),
    ])
    .expect("no conflict");
    assert_eq!(table.route(IpAddr::v4(10, 9, 9, 9)), Some(0));
    assert_eq!(table.route(IpAddr::v4(10, 1, 9, 9)), Some(1));
    assert_eq!(table.route(IpAddr::v4(10, 1, 2, 3)), Some(2));
    assert_eq!(table.route(IpAddr::v4(11, 0, 0, 1)), None);
    assert!(table.permits(2, IpAddr::v4(10, 1, 2, 3)));
    assert!(!table.permits(0, IpAddr::v4(10, 1, 2, 3)), "a sender is held to the best route");
}

#[test]
fn one_range_has_one_owner() {
    let range = prefix(10, 0, 0, 0, 8);
    match AllowedIps::build(vec![(range, 0), (range, 1)]) {
        Err(conflict) => assert_eq!(conflict, Conflict { prefix: range, first: 0, second: 1 }),
        Ok(_) => panic!("two peers own one range"),
    }
    assert!(AllowedIps::build(vec![(range, 0), (range, 0)]).is_ok());
}

#[test]
fn an_interface_address_keeps_its_host_bits() {
    let address = InterfaceAddress { addr: IpAddr::v4(100, 64, 0, 1), prefix_len: 16 };
    assert_eq!(address.network(), prefix(100, 64, 0, 0, 16));
}

#[test]
fn addresses_are_written_as_usual() {
    assert_eq!(IpAddr::v4(192, 0, 2, 7).to_text(), "192.0.2.7");
    assert_eq!(IpAddr::V6(0).to_text(), "::");
    assert_eq!(IpAddr::V6(1).to_text(), "::1");
    for (bits, text) in [
        (0x2001_0db8_0000_0000_0000_0000_0000_0010, "2001:db8::10"),
        (0x2001_0db8_0000_0001_0000_0000_0000_0001, "2001:db8:0:1::1"),
        (0x0001_0000_0000_0002_0000_0000_0000_0003, "1:0:0:2::3"),
        (0x0001_0002_0003_0004_0005_0006_0007_0008, "1:2:3:4:5:6:7:8"),
        (0x0001_0002_0003_0000_0005_0006_0007_0008, "1:2:3:0:5:6:7:8"),
        (0xfe80_0000_0000_0000_0000_0000_0000_0000, "fe80::"),
    ] {
        assert_eq!(IpAddr::V6(bits).to_text(), text);
    }
    assert_eq!(SocketAddr::new(IpAddr::V6(1), 53).to_text(), "[::1]:53");
    assert_eq!(SocketAddr::new(IpAddr::v4(127, 0, 0, 1), 53).to_text(), "127.0.0.1:53");
}

#[test]
fn seeds_differ_and_nonces_are_their_beginnings() {
    let first = random_seed().expect("randomness");
    let second = random_seed().expect("randomness");
    assert_ne!(first, second);
    assert_ne!(first.0, [0; 32]);
    assert_eq!(seed_of(Some(vec![7; 32])).expect("bytes").0, [7; 32]);
    assert!(seed_of(None).is_none());
    assert_eq!(nonce_of(&first).0, first.0[..12]);
    assert_ne!(nonce().expect("randomness"), nonce().expect("randomness"));
    assert_eq!(private_key_seed().expect("randomness").len(), 96);
}

//! IPv4 destinations behind a NAT64.

use karstd::addr::{IpAddr, SocketAddr};
use karstd::nat64::{
    decode_aaaa, discover, discovers, encode_query, has_ipv4, id_bytes, nameservers, query_aaaa,
    rand_bytes, resolve, rewrite_authority, rewrite_url, skip_name, Mode, Nat64Prefix,
    IPV4ONLY_ARPA,
};

#[test]
fn a_pointer_terminates_the_name_it_appears_in() {
    let msg = [0xC0u8, 0x0C, 0, 0];
    assert_eq!(skip_name(&msg, 0), Some(2));
    // A pointer to itself would loop if it were followed rather than skipped.
    let loopy = [0xC0u8, 0x00];
    assert_eq!(skip_name(&loopy, 0), Some(2));
}

#[test]
fn the_query_asks_for_what_it_says_it_asks_for() {
    let q = encode_query(0xBEEF, IPV4ONLY_ARPA);
    assert_eq!(&q[0..2], &0xBEEFu16.to_be_bytes());
    assert_eq!(&q[4..6], &1u16.to_be_bytes(), "one question");
    // `\x08ipv4only\x04arpa\x00`, then AAAA and IN.
    assert_eq!(&q[12..13], b"\x08");
    assert_eq!(&q[13..21], b"ipv4only");
    assert_eq!(&q[21..22], b"\x04");
    assert_eq!(&q[22..26], b"arpa");
    assert_eq!(q[26], 0);
    assert_eq!(&q[27..29], &28u16.to_be_bytes());
    assert_eq!(&q[29..31], &1u16.to_be_bytes());
}

fn any_v4() -> SocketAddr {
    SocketAddr::new(IpAddr::V4(0), 51820)
}

fn any_v6() -> SocketAddr {
    SocketAddr::new(IpAddr::V6(0), 51820)
}

/// A setting, with the prefix that its text is, if it is one.
fn mode(text: &str, bits: u128, len: u8) -> Option<Mode> {
    Mode::from_text(text, Nat64Prefix::new(bits, len))
}

fn well_known() -> Mode {
    Mode::Fixed(Nat64Prefix::well_known())
}

#[test]
fn the_three_spellings_of_the_setting_mean_what_they_say() {
    assert_eq!(Mode::from_text("off", None), Some(Mode::Off));
    assert_eq!(Mode::from_text("false", None), Some(Mode::Off));
    assert_eq!(Mode::from_text("auto", None), Some(Mode::Auto));
    let bits = 0x64_ff9b_0000_0000_0000_0000_0000_0000;
    assert_eq!(mode("64:ff9b::/96", bits, 96), Some(well_known()));
    // RFC 6052 knows no prefix of this length.
    assert_eq!(mode("64:ff9b::/80", bits, 80), None);
}

#[test]
fn a_prefix_is_refused_on_an_ipv4_datapath() {
    assert_eq!(resolve(well_known(), any_v4(), false, None), None);
    assert_eq!(
        resolve(well_known(), any_v6(), false, None),
        Some(Nat64Prefix::well_known())
    );
}

#[test]
fn off_never_synthesises() {
    for listen in [any_v4(), any_v6()] {
        assert!(!discovers(Mode::Off, listen, false));
        assert_eq!(
            resolve(Mode::Off, listen, false, Some(Nat64Prefix::well_known())),
            None
        );
    }
}

#[test]
fn auto_is_a_no_op_on_an_ipv4_datapath() {
    assert!(
        !discovers(Mode::Auto, any_v4(), false),
        "auto asks no resolver for a socket that could never use the answer"
    );
    assert_eq!(
        resolve(Mode::Auto, any_v4(), false, Some(Nat64Prefix::well_known())),
        None
    );
}

#[test]
fn auto_uses_what_it_discovers_on_a_host_without_ipv4() {
    let found = Some(Nat64Prefix::well_known());
    assert!(discovers(Mode::Auto, any_v6(), false));
    assert_eq!(resolve(Mode::Auto, any_v6(), false, found), found);
    assert!(!discovers(Mode::Auto, any_v6(), true));
    assert_eq!(resolve(Mode::Auto, any_v6(), true, found), None);
}

#[test]
fn loopback_and_the_unspecified_address_are_no_ipv4() {
    assert!(!has_ipv4(&vec![]));
    assert!(!has_ipv4(&vec![IpAddr::v4(127, 0, 0, 1), IpAddr::v4(0, 0, 0, 0)]));
    assert!(!has_ipv4(&vec![IpAddr::V6(1)]));
    assert!(has_ipv4(&vec![IpAddr::v4(127, 0, 0, 1), IpAddr::v4(192, 0, 2, 1)]));
}

/// A whole response, byte for byte, as a DNS64 resolver would send it.
fn response(id: u16, rcode: u16, answers: &[u128]) -> Vec<u8> {
    let mut m = encode_query(id, IPV4ONLY_ARPA);
    m[2] = 0x81;
    m[3] = 0x80 | u8::try_from(rcode).unwrap();
    let count = u16::try_from(answers.len()).unwrap();
    m[6..8].copy_from_slice(&count.to_be_bytes());
    for a in answers {
        m.extend_from_slice(&[0xC0, 0x0C]);
        m.extend_from_slice(&28u16.to_be_bytes());
        m.extend_from_slice(&1u16.to_be_bytes());
        m.extend_from_slice(&60u32.to_be_bytes());
        m.extend_from_slice(&16u16.to_be_bytes());
        m.extend_from_slice(&a.to_be_bytes());
    }
    m
}

#[test]
fn a_dns64_answer_yields_the_prefix_it_was_synthesised_with() {
    let prefix = Nat64Prefix::well_known();
    // 192.0.0.170, the address that the name is for.
    let synthesised = prefix.synthesise(0xC000_00AA);
    let bits = match synthesised {
        IpAddr::V6(bits) => bits,
        IpAddr::V4(_) => panic!("an IPv6 address was synthesised"),
    };
    assert_eq!(bits, 0x64_ff9b_0000_0000_0000_0000_c000_00aa);
    let msg = response(0x1234, 0, &[bits]);
    let answers = decode_aaaa(&msg, 0x1234).expect("a well-formed response");
    assert_eq!(answers, vec![synthesised]);
    assert_eq!(discover(&answers), Some(prefix));
}

#[test]
fn an_answer_that_was_not_synthesised_gives_nothing_away() {
    assert_eq!(Nat64Prefix::from_ipv4only_arpa(IpAddr::V6(1)), None);
    assert_eq!(Nat64Prefix::from_ipv4only_arpa(IpAddr::v4(192, 0, 0, 170)), None);
    let short = Nat64Prefix::new(0x2001_0db8_0122_0300_0000_0000_0000_0000, 56).expect("prefix");
    let answer = short.synthesise(0xC000_00AB);
    assert_eq!(discover(&vec![IpAddr::V6(1), answer]), Some(short));
    assert_eq!(discover(&vec![]), None);
}

#[test]
fn every_length_and_both_addresses_read_back() {
    for (bits, len) in [
        (0x2001_0db8_0000_0000_0000_0000_0000_0000, 32),
        (0x2001_0db8_0100_0000_0000_0000_0000_0000, 40),
        (0x2001_0db8_0122_0000_0000_0000_0000_0000, 48),
        (0x2001_0db8_0122_0300_0000_0000_0000_0000, 56),
        (0x2001_0db8_0122_0344_0000_0000_0000_0000, 64),
        (0x2001_0db8_0122_0344_0000_0000_0000_0000, 96),
    ] {
        let prefix = Nat64Prefix::new(bits, len).expect("a prefix");
        for v4 in [0xC000_00AA, 0xC000_00AB] {
            let answer = prefix.synthesise(v4);
            assert_eq!(Nat64Prefix::from_ipv4only_arpa(answer), Some(prefix), "/{len}");
        }
    }
}

#[test]
fn only_the_server_that_was_asked_is_believed() {
    let server = SocketAddr::new(IpAddr::v4(192, 0, 2, 53), 53);
    let other = SocketAddr::new(IpAddr::v4(192, 0, 2, 54), 53);
    let msg = response(0x1234, 0, &[1]);
    assert_eq!(query_aaaa(server, other, &msg, 0x1234), None);
    assert_eq!(query_aaaa(server, server, &msg, 0x1234), Some(Ok(vec![IpAddr::V6(1)])));
    assert!(matches!(query_aaaa(server, server, &msg, 0x9999), Some(Err(_))));
    assert_eq!(id_bytes(None), (0x4b, 0x53));
    assert_eq!(id_bytes(Some(vec![0x12, 0x34])), (0x12, 0x34));
    let ids: Vec<(u8, u8)> = (0..8).map(|_| rand_bytes()).collect();
    assert!(ids.iter().any(|id| *id != ids[0]), "eight ids in a row were the same");
}

#[test]
fn every_prefix_length_embeds_an_address_in_its_own_way() {
    // The table of RFC 6052: 192.0.2.33 under 2001:db8::/32 and its like.
    for (bits, len, expected) in [
        (0x2001_0db8_0000_0000_0000_0000_0000_0000, 32, 0x2001_0db8_c000_0221_0000_0000_0000_0000),
        (0x2001_0db8_0100_0000_0000_0000_0000_0000, 40, 0x2001_0db8_01c0_0002_0021_0000_0000_0000),
        (0x2001_0db8_0122_0000_0000_0000_0000_0000, 48, 0x2001_0db8_0122_c000_0002_2100_0000_0000),
        (0x2001_0db8_0122_0300_0000_0000_0000_0000, 56, 0x2001_0db8_0122_03c0_0000_0221_0000_0000),
        (0x2001_0db8_0122_0344_0000_0000_0000_0000, 64, 0x2001_0db8_0122_0344_00c0_0002_2100_0000),
        (0x2001_0db8_0122_0344_0000_0000_0000_0000, 96, 0x2001_0db8_0122_0344_0000_0000_c000_0221),
    ] {
        let prefix = Nat64Prefix::new(bits, len).expect("a prefix");
        assert_eq!(prefix.synthesise(0xC000_0221), IpAddr::V6(expected), "/{len}");
    }
}

#[test]
fn a_response_with_the_wrong_id_is_rejected() {
    let msg = response(0x1234, 0, &[1]);
    assert_eq!(decode_aaaa(&msg, 0x9999), None);
}

#[test]
fn a_network_without_dns64_yields_no_prefix() {
    let empty = response(7, 0, &[]);
    assert_eq!(decode_aaaa(&empty, 7), Some(Vec::new()));
    let nxdomain = response(7, 3, &[]);
    assert_eq!(decode_aaaa(&nxdomain, 7), Some(Vec::new()));
}

#[test]
fn a_truncated_response_is_refused_without_panicking() {
    let full = response(1, 0, &[1]);
    for cut in 0..full.len() {
        let _ = decode_aaaa(&full[..cut], 1);
    }
    // A record claiming more data than the message holds.
    let mut lying = full.clone();
    let len = lying.len();
    lying[len - 18..len - 16].copy_from_slice(&0xFFFFu16.to_be_bytes());
    assert_eq!(decode_aaaa(&lying, 1), None);
}

#[test]
fn literals_are_rewritten_and_names_are_not() {
    let p = Some(Nat64Prefix::well_known());
    assert_eq!(
        rewrite_authority(p, "51.75.10.10:8443"),
        "[64:ff9b::334b:a0a]:8443"
    );
    assert_eq!(
        rewrite_url(p, "http://51.75.10.10:9443"),
        "http://[64:ff9b::334b:a0a]:9443"
    );
    assert_eq!(
        rewrite_url(p, "https://51.75.10.10:9443/v1/session?x=1"),
        "https://[64:ff9b::334b:a0a]:9443/v1/session?x=1",
        "the path and query belong to the server, not to us"
    );
    assert_eq!(
        rewrite_url(p, "https://51.75.10.10/v1"),
        "https://[64:ff9b::334b:a0a]/v1",
        "a URL with no port still names a host"
    );
    assert_eq!(
        rewrite_authority(p, "relay.example.com:8443"),
        "relay.example.com:8443"
    );
    assert_eq!(
        rewrite_url(p, "https://karst.example.com:443"),
        "https://karst.example.com:443"
    );
    assert_eq!(
        rewrite_authority(p, "[2001:db8::1]:8443"),
        "[2001:db8::1]:8443"
    );
    assert_eq!(
        rewrite_url(p, "https://[2001:db8::1]:443"),
        "https://[2001:db8::1]:443"
    );
}

#[test]
fn without_a_prefix_nothing_is_rewritten() {
    for s in [
        "51.75.10.10:8443",
        "relay.example.com:8443",
        "[2001:db8::1]:8443",
    ] {
        assert_eq!(rewrite_authority(None, s), s);
    }
    for s in ["http://51.75.10.10:9443", "https://karst.example.com"] {
        assert_eq!(rewrite_url(None, s), s);
    }
}

#[test]
fn only_nameserver_lines_name_a_server() {
    let sample = "# a comment\n\
                  search example.com\n\
                  nameserver 192.0.2.1\n\
                  nameserver fd00:11::1 # inline comment\n\
                  options edns0\n\
                  nameserverbroken 10.0.0.1\n";
    let words = nameservers(sample);
    assert_eq!(words[..2], ["192.0.2.1", "fd00:11::1"]);
    assert!(
        !words.iter().any(|w| w == "10.0.0.1"),
        "`nameserverbroken` is not a nameserver line"
    );
}

//! The peer roster, from either of its two sources: a hand-written file, or the
//! netmap that the coordination server sent. Nothing downstream can tell which.
//!
//! The two are mutually exclusive. A file naming both peers and a control
//! server is refused rather than merged: there is no good answer to which one
//! wins.

use crate::addr::{IpAddr, SocketAddr};
use crate::bytes::Bytes;
use crate::crypto::{
    encodes_kem_key, kem_key_valid, mlkem768_public, mlkem768_public_key, x25519_public,
    x25519_public_key, KEM_PUBLIC_KEY_LEN,
};
use crate::filter::{
    byte_strings, compiled_egresses, compiled_rules, is_for, lemma_egresses, lemma_rules,
    lists_port, means, rule_set, valid_cidrs, EgressRule, FilterRule, Packet, PacketFilter,
    SshFilter, Verdict,
};
use crate::nat64::{authority_text, rewrite_authority, Nat64Prefix};
use crate::routing::{
    first_conflict, lemma_owner_is_a_claim, lies_in, the_longest_range_decides, AllowedIps, Conflict,
    InterfaceAddress, Prefix,
};
use crate::text::{
    chars_of, decimal, decimal_text, digit_worth, hex_char, hex_digit, lossy, lossy_text, octal, octal_text, pad,
    padded, quoted, quoted_text, same, string_of, trim, trimmed,
};
use vstd::prelude::*;

verus! {

/// Bytes of seed material a node's private key file carries: 64 for the key
/// encapsulation and 32 for the Diffie-Hellman key.
pub const PRIVATE_KEY_LEN: usize = 96;

/// Where bare IP packets come from and go to.
#[derive(Clone, Copy, Debug, PartialEq, Eq, Structural)]
pub enum NetworkMode {
    /// A TUN device and host routes.
    Tun,
    /// The userspace IP stack; no host network configuration is attempted.
    Userspace,
}

impl Default for NetworkMode {
    fn default() -> (m: NetworkMode)
        ensures
            m == NetworkMode::Tun,
    {
        NetworkMode::Tun
    }
}

/// Anything that stopped a configuration from loading.
#[derive(Debug)]
pub enum ConfigError {
    /// The file could not be read.
    Read { path: String, source: String },
    /// The file is not a configuration.
    Parse { path: String, message: String },
    /// A file holding secrets is readable by more than its owner.
    Permissions { path: String, mode: u32 },
    /// A hex field was not valid hex, or was the wrong length.
    Hex { field: String, reason: String },
    /// A key was syntactically fine but not a valid encoding.
    InvalidKey { peer: String, field: String },
    /// An address range was malformed.
    Prefix { peer: String, source: String },
    /// Two peers claim the same address range.
    Conflict(Conflict),
    /// Two peers share a name.
    DuplicatePeerName(String),
    /// The roster is empty or otherwise unusable.
    Unusable(String),
}

/// A configuration error as a value.
pub enum Fault {
    Read { path: Seq<char>, source: Seq<char> },
    Parse { path: Seq<char>, message: Seq<char> },
    Permissions { path: Seq<char>, mode: u32 },
    Hex { field: Seq<char>, reason: Seq<char> },
    InvalidKey { peer: Seq<char>, field: Seq<char> },
    Prefix { peer: Seq<char>, source: Seq<char> },
    Conflict(Conflict),
    DuplicatePeerName(Seq<char>),
    Unusable(Seq<char>),
}

impl View for ConfigError {
    type V = Fault;

    open spec fn view(&self) -> Fault {
        match *self {
            ConfigError::Read { path, source } => Fault::Read { path: path@, source: source@ },
            ConfigError::Parse { path, message } => Fault::Parse {
                path: path@,
                message: message@,
            },
            ConfigError::Permissions { path, mode } => Fault::Permissions { path: path@, mode },
            ConfigError::Hex { field, reason } => Fault::Hex { field: field@, reason: reason@ },
            ConfigError::InvalidKey { peer, field } => Fault::InvalidKey {
                peer: peer@,
                field: field@,
            },
            ConfigError::Prefix { peer, source } => Fault::Prefix { peer: peer@, source: source@ },
            ConfigError::Conflict(c) => Fault::Conflict(c),
            ConfigError::DuplicatePeerName(n) => Fault::DuplicatePeerName(n@),
            ConfigError::Unusable(m) => Fault::Unusable(m@),
        }
    }
}

/// The message for two peers claiming one range.
pub open spec fn conflict_text(c: Conflict) -> Seq<char> {
    c.prefix.text() + " is claimed by peer "@ + decimal_text(c.first as nat) + " and by peer "@
        + decimal_text(c.second as nat)
}

impl Fault {
    /// The message for the error.
    pub open spec fn text(self) -> Seq<char> {
        match self {
            Fault::Read { path, source } => "reading "@ + path + ": "@ + source,
            Fault::Parse { path, message } => "parsing "@ + path + ": "@ + message,
            Fault::Permissions { path, mode } => path + " is mode "@ + padded(
                octal_text(mode as nat),
                4,
            )
                + "; it holds key material and must not be readable by group or other (chmod 600)"@,
            Fault::Hex { field, reason } => "field "@ + field + ": "@ + reason,
            Fault::InvalidKey { peer, field } => "peer "@ + quoted_text(peer) + ": "@ + field
                + " is not a valid key encoding"@,
            Fault::Prefix { peer, source } => "peer "@ + quoted_text(peer) + ": "@ + source,
            Fault::Conflict(c) => conflict_text(c),
            Fault::DuplicatePeerName(n) => "two peers are both named "@ + quoted_text(n),
            Fault::Unusable(m) => m,
        }
    }
}

/// `a` followed by `b`.
fn joined(a: &str, b: &str) -> (r: String)
    ensures
        r@ == a@ + b@,
{
    let mut r = String::from_str(a);
    r.append(b);
    r
}

/// The four parts one after another.
fn four(a: &str, b: &str, c: &str, d: &str) -> (r: String)
    ensures
        r@ == a@ + b@ + c@ + d@,
{
    let mut r = String::from_str(a);
    r.append(b);
    r.append(c);
    r.append(d);
    r
}

impl ConfigError {
    /// The message for the error.
    pub fn to_text(&self) -> (s: String)
        ensures
            s@ == self@.text(),
    {
        match self {
            ConfigError::Read { path, source } => four(
                "reading ",
                path.as_str(),
                ": ",
                source.as_str(),
            ),
            ConfigError::Parse { path, message } => four(
                "parsing ",
                path.as_str(),
                ": ",
                message.as_str(),
            ),
            ConfigError::Permissions { path, mode } => {
                let digits = octal(*mode as u64);
                let digits = pad(digits.as_str(), 4);
                four(
                    path.as_str(),
                    " is mode ",
                    digits.as_str(),
                    "; it holds key material and must not be readable by group or other (chmod 600)",
                )
            },
            ConfigError::Hex { field, reason } => four(
                "field ",
                field.as_str(),
                ": ",
                reason.as_str(),
            ),
            ConfigError::InvalidKey { peer, field } => {
                let name = quoted(peer.as_str());
                let mut s = four("peer ", name.as_str(), ": ", field.as_str());
                s.append(" is not a valid key encoding");
                s
            },
            ConfigError::Prefix { peer, source } => {
                let name = quoted(peer.as_str());
                four("peer ", name.as_str(), ": ", source.as_str())
            },
            ConfigError::Conflict(c) => {
                let range = c.prefix.to_text();
                let first = decimal(c.first as u64);
                let second = decimal(c.second as u64);
                let mut s = four(
                    range.as_str(),
                    " is claimed by peer ",
                    first.as_str(),
                    " and by peer ",
                );
                s.append(second.as_str());
                s
            },
            ConfigError::DuplicatePeerName(n) => {
                let name = quoted(n.as_str());
                joined("two peers are both named ", name.as_str())
            },
            ConfigError::Unusable(m) => m.clone(),
        }
    }
}

/// Refuses a secret-bearing file that anyone but its owner can read.
pub fn check_permissions(path: &str, mode: u32) -> (r: Result<(), ConfigError>)
    ensures
        match r {
            Ok(()) => mode % 0o100 == 0,
            Err(e) => mode % 0o100 != 0 && e@ == (Fault::Permissions {
                path: path@,
                mode: mode % 0o1000,
            }),
        },
{
    if mode % 0o100 != 0 {
        Err(ConfigError::Permissions { path: String::from_str(path), mode: mode % 0o1000 })
    } else {
        Ok(())
    }
}

/// The value of a hexadecimal digit.
pub open spec fn nibble_value(b: u8) -> Option<u8> {
    if 48 <= b <= 57 {
        Some((b - 48) as u8)
    } else if 97 <= b <= 102 {
        Some((b - 87) as u8)
    } else if 65 <= b <= 70 {
        Some((b - 55) as u8)
    } else {
        None
    }
}

/// The bytes that pairs of hexadecimal digits spell.
pub open spec fn hex_bytes(s: Seq<u8>) -> Option<Seq<u8>>
    decreases s.len(),
{
    if s.len() < 2 {
        Some(seq![])
    } else {
        match (
            hex_bytes(s.take(s.len() - 2)),
            nibble_value(s[s.len() - 2]),
            nibble_value(s[s.len() - 1]),
        ) {
            (Some(init), Some(high), Some(low)) => Some(init.push((high * 16 + low) as u8)),
            _ => None,
        }
    }
}

/// The bytes that a hex field of an exact expected length holds.
pub open spec fn decoded(s: Seq<char>, expect: nat, field: Seq<char>) -> Result<Seq<u8>, Fault> {
    let bytes = vstd::utf8::encode_utf8(trimmed(s));
    if bytes.len() != expect * 2 {
        Err(
            Fault::Hex {
                field,
                reason: "expected "@ + decimal_text(expect * 2) + " hex characters ("@
                    + decimal_text(expect) + " bytes), found "@ + decimal_text(bytes.len()),
            },
        )
    } else {
        match hex_bytes(bytes) {
            Some(v) => Ok(v),
            None => Err(
                Fault::Hex { field, reason: "contains a non-hexadecimal character"@ },
            ),
        }
    }
}

fn nibble(b: u8) -> (r: Option<u8>)
    ensures
        r == nibble_value(b),
{
    if 48 <= b && b <= 57 {
        Some(b - 48)
    } else if 97 <= b && b <= 102 {
        Some(b - 87)
    } else if 65 <= b && b <= 70 {
        Some(b - 55)
    } else {
        None
    }
}

proof fn lemma_hex_none(s: Seq<u8>, n: int)
    requires
        0 <= n <= s.len(),
        n % 2 == 0,
        s.len() % 2 == 0,
        hex_bytes(s.take(n)) is None,
    ensures
        hex_bytes(s) is None,
    decreases s.len() - n,
{
    if n < s.len() {
        let next = s.take(n + 2);
        assert(next.take(n) =~= s.take(n));
        lemma_hex_none(s, n + 2);
    } else {
        assert(s.take(n) =~= s);
    }
}

/// Decodes a hex string of an exact expected length.
pub fn decode_hex(s: &str, expect_len: usize, field: &str) -> (r: Result<Vec<u8>, ConfigError>)
    requires
        expect_len * 2 <= usize::MAX,
    ensures
        match (r, decoded(s@, expect_len as nat, field@)) {
            (Ok(v), Ok(bytes)) => v@ == bytes && v@.len() == expect_len,
            (Err(e), Err(fault)) => e@ == fault,
            _ => false,
        },
{
    let t = trim(s);
    let bytes = t.as_str().as_bytes();
    if bytes.len() != expect_len * 2 {
        let expected = decimal((expect_len * 2) as u64);
        let count = decimal(expect_len as u64);
        let found = decimal(bytes.len() as u64);
        let mut reason = four(
            "expected ",
            expected.as_str(),
            " hex characters (",
            count.as_str(),
        );
        reason.append(" bytes), found ");
        reason.append(found.as_str());
        return Err(ConfigError::Hex { field: String::from_str(field), reason });
    }
    let mut out: Vec<u8> = Vec::new();
    let mut i: usize = 0;
    assert(out@ =~= seq![]);
    while i < bytes.len()
        invariant
            i <= bytes@.len() == expect_len * 2,
            i % 2 == 0,
            out@.len() * 2 == i,
            hex_bytes(bytes@.take(i as int)) == Some(out@),
            bytes@ == vstd::utf8::encode_utf8(trimmed(s@)),
        decreases bytes@.len() - i,
    {
        let ghost next = bytes@.take(i + 2);
        assert(next.take(next.len() - 2) =~= bytes@.take(i as int));
        match (nibble(bytes[i]), nibble(bytes[i + 1])) {
            (Some(high), Some(low)) => out.push(high * 16 + low),
            _ => {
                proof {
                    assert(hex_bytes(next) is None);
                    lemma_hex_none(bytes@, i + 2);
                }
                return Err(
                    ConfigError::Hex {
                        field: String::from_str(field),
                        reason: String::from_str("contains a non-hexadecimal character"),
                    },
                );
            },
        }
        i = i + 2;
    }
    assert(bytes@.take(i as int) =~= bytes@);
    Ok(out)
}

/// Bytes as lower-case hexadecimal digits, two for each.
pub open spec fn hex_of(bytes: Seq<u8>) -> Seq<char>
    decreases bytes.len(),
{
    if bytes.len() == 0 {
        seq![]
    } else {
        let b = bytes.last() as nat;
        hex_of(bytes.drop_last()).push(hex_digit(b / 16)).push(hex_digit(b % 16))
    }
}

/// Renders bytes as lower-case hex.
pub fn encode_hex(bytes: &[u8]) -> (s: String)
    ensures
        s@ == hex_of(bytes@),
{
    let mut s = String::new();
    let mut i: usize = 0;
    while i < bytes.len()
        invariant
            i <= bytes@.len(),
            s@ == hex_of(bytes@.take(i as int)),
        decreases bytes@.len() - i,
    {
        assert(bytes@.take(i + 1).drop_last() =~= bytes@.take(i as int));
        s.push(hex_char(bytes[i] / 16));
        s.push(hex_char(bytes[i] % 16));
        i = i + 1;
    }
    assert(bytes@.take(i as int) =~= bytes@);
    s
}

proof fn lemma_hex_of(bytes: Seq<u8>)
    ensures
        hex_of(bytes).len() == 2 * bytes.len(),
        forall|i: int| 0 <= i < hex_of(bytes).len() ==> is_hex_char(#[trigger] hex_of(bytes)[i]),
    decreases bytes.len(),
{
    if bytes.len() > 0 {
        lemma_hex_of(bytes.drop_last());
        let init = hex_of(bytes.drop_last());
        let b = bytes.last() as nat;
        assert(is_hex_char(hex_digit(b / 16)));
        assert(is_hex_char(hex_digit(b % 16)));
        assert forall|i: int| 0 <= i < hex_of(bytes).len() implies is_hex_char(
            #[trigger] hex_of(bytes)[i],
        ) by {
            if i < init.len() {
                assert(hex_of(bytes)[i] == init[i]);
            }
        }
    }
}

/// Whether `c` is a lower-case hexadecimal digit.
spec fn is_hex_char(c: char) -> bool {
    ('0' <= c <= '9') || ('a' <= c <= 'f')
}

proof fn lemma_hex_back(bytes: Seq<u8>)
    ensures
        hex_bytes(hex_of(bytes).map_values(|c: char| c as u8)) == Some(bytes),
    decreases bytes.len(),
{
    let text = hex_of(bytes);
    let raw = text.map_values(|c: char| c as u8);
    lemma_hex_of(bytes);
    if bytes.len() == 0 {
        assert(bytes =~= seq![]);
    } else {
        let init = bytes.drop_last();
        lemma_hex_back(init);
        lemma_hex_of(init);
        let head = hex_of(init);
        assert(raw.take(raw.len() - 2) =~= head.map_values(|c: char| c as u8));
        let b = bytes.last();
        assert(raw[raw.len() - 2] == hex_digit(b as nat / 16) as u8);
        assert(raw[raw.len() - 1] == hex_digit(b as nat % 16) as u8);
        assert(nibble_value(raw[raw.len() - 2]) == Some((b / 16) as u8));
        assert(nibble_value(raw[raw.len() - 1]) == Some((b % 16) as u8));
        assert(bytes =~= init.push(b));
    }
}

/// Hex round-trips: decoding what was encoded gives the bytes back.
pub proof fn hex_round_trips(bytes: Seq<u8>, field: Seq<char>)
    ensures
        decoded(hex_of(bytes), bytes.len(), field) == Ok::<Seq<u8>, Fault>(bytes),
{
    let text = hex_of(bytes);
    lemma_hex_of(bytes);
    assert(trimmed(text) == text) by {
        if text.len() > 0 {
            assert(is_hex_char(text[0]));
            assert(is_hex_char(text[text.len() - 1]));
        }
    }
    assert(vstd::utf8::is_ascii_chars(text)) by {
        assert forall|i: int| 0 <= i < text.len() implies '\0' <= #[trigger] text[i] <= '\u{7f}' by {
            assert(is_hex_char(text[i]));
        }
    }
    vstd::utf8::is_ascii_chars_encode_utf8(text);
    let raw = text.map_values(|c: char| c as u8);
    assert(vstd::utf8::encode_utf8(text) =~= raw);
    lemma_hex_back(bytes);
}

/// One overlay TCP port that a node answers on, and where it goes.
#[derive(Clone, Copy, Debug, PartialEq, Eq, Structural)]
pub struct PublishSection {
    pub port: u16,
    pub to: SocketAddr,
}

/// What is wrong with the first entry of `publish` that is wrong, among the
/// first `n`: port zero, or a port that an earlier entry names.
pub open spec fn publish_fault(publish: Seq<PublishSection>, n: nat) -> Option<Fault>
    decreases n,
{
    if n == 0 {
        None
    } else {
        match publish_fault(publish, (n - 1) as nat) {
            Some(f) => Some(f),
            None => {
                let port = publish[n - 1].port;
                if port == 0 {
                    Some(
                        Fault::Unusable(
                            "node.userspace_publish has an entry on port 0, which nothing can connect to"@,
                        ),
                    )
                } else if exists|i: int| 0 <= i < n - 1 && (#[trigger] publish[i]).port == port {
                    Some(
                        Fault::Unusable(
                            "node.userspace_publish names overlay port "@ + decimal_text(
                                port as nat,
                            ) + " twice"@,
                        ),
                    )
                } else {
                    None
                }
            },
        }
    }
}

/// What is wrong with the userspace settings, if anything.
pub open spec fn userspace_fault(
    mode: NetworkMode,
    socks5: Option<SocketAddr>,
    publish: Seq<PublishSection>,
) -> Option<Fault> {
    if mode == NetworkMode::Tun {
        if socks5 is Some {
            Some(
                Fault::Unusable(
                    "node.userspace_socks5_listen requires network_mode = \"userspace\""@,
                ),
            )
        } else if publish.len() > 0 {
            Some(
                Fault::Unusable(
                    "node.userspace_publish requires network_mode = \"userspace\"; in TUN mode a service reachable from the mesh is one bound to the interface address"@,
                ),
            )
        } else {
            None
        }
    } else if socks5 is None && publish.len() == 0 {
        Some(
            Fault::Unusable(
                "network_mode = \"userspace\" requires node.userspace_socks5_listen or at least one [[node.userspace_publish]] entry; without one the stack has no attachment"@,
            ),
        )
    } else {
        publish_fault(publish, publish.len())
    }
}

fn unusable(message: &str) -> (e: ConfigError)
    ensures
        e@ == Fault::Unusable(message@),
{
    ConfigError::Unusable(String::from_str(message))
}

proof fn lemma_publish_fault_stays(publish: Seq<PublishSection>, m: nat, n: nat)
    requires
        m <= n,
        publish_fault(publish, m) is Some,
    ensures
        publish_fault(publish, n) == publish_fault(publish, m),
    decreases n - m,
{
    if m < n {
        lemma_publish_fault_stays(publish, m, (n - 1) as nat);
    }
}

/// Checks the userspace settings: they belong to userspace mode, and there the
/// stack must have some way in or out. Two entries for one port would be two
/// answers to where it goes.
pub fn validate_userspace(
    mode: NetworkMode,
    socks5_listen: Option<SocketAddr>,
    publish: &Vec<PublishSection>,
) -> (r: Result<(), ConfigError>)
    ensures
        match (r, userspace_fault(mode, socks5_listen, publish@)) {
            (Ok(()), None) => true,
            (Err(e), Some(f)) => e@ == f,
            _ => false,
        },
{
    if mode == NetworkMode::Tun {
        if socks5_listen.is_some() {
            return Err(
                unusable("node.userspace_socks5_listen requires network_mode = \"userspace\""),
            );
        }
        if publish.len() > 0 {
            return Err(
                unusable(
                    "node.userspace_publish requires network_mode = \"userspace\"; in TUN mode a service reachable from the mesh is one bound to the interface address",
                ),
            );
        }
        return Ok(());
    }
    if socks5_listen.is_none() && publish.len() == 0 {
        return Err(
            unusable(
                "network_mode = \"userspace\" requires node.userspace_socks5_listen or at least one [[node.userspace_publish]] entry; without one the stack has no attachment",
            ),
        );
    }
    let mut n: usize = 0;
    while n < publish.len()
        invariant
            n <= publish@.len(),
            mode == NetworkMode::Userspace,
            socks5_listen is Some || publish@.len() > 0,
            publish_fault(publish@, n as nat) is None,
        decreases publish@.len() - n,
    {
        let port: u16 = publish[n].port;
        if port == 0 {
            proof {
                lemma_publish_fault_stays(publish@, (n + 1) as nat, publish@.len());
            }
            return Err(
                unusable(
                    "node.userspace_publish has an entry on port 0, which nothing can connect to",
                ),
            );
        }
        let mut i: usize = 0;
        while i < n && publish[i].port != port
            invariant
                i <= n < publish@.len(),
                forall|j: int| 0 <= j < i ==> (#[trigger] publish@[j]).port != port,
            decreases n - i,
        {
            i = i + 1;
        }
        if i < n {
            proof {
                assert(publish@[i as int].port == port);
                lemma_publish_fault_stays(publish@, (n + 1) as nat, publish@.len());
            }
            let number = decimal(port as u64);
            let mut message = joined("node.userspace_publish names overlay port ", number.as_str());
            message.append(" twice");
            return Err(ConfigError::Unusable(message));
        }
        n = n + 1;
    }
    Ok(())
}

/// One peer of a hand-written roster. Each range is an error message when its
/// text is not a prefix.
pub struct PeerSection {
    pub name: String,
    pub kem_public_key: String,
    pub dh_public_key: String,
    pub psk: Option<String>,
    pub endpoint: Option<SocketAddr>,
    pub allowed_ips: Vec<Result<Prefix, String>>,
}

/// One peer of a netmap. Each range is an error message when its text is not a
/// prefix.
pub struct NetmapPeer {
    pub node_id: Vec<u8>,
    pub dns_name: String,
    pub kem_public_key: Vec<u8>,
    pub dh_public_key: Vec<u8>,
    pub psk: Option<Bytes<32>>,
    pub allowed_ips: Vec<Result<Prefix, String>>,
    pub endpoint: Option<SocketAddr>,
    pub disco_key: Option<Bytes<32>>,
    pub home_relay: Vec<u8>,
}

/// A peer, ready to use.
pub struct Peer {
    pub name: String,
    pub node_id: Vec<u8>,
    pub kem_public_key: Vec<u8>,
    pub dh_public_key: Bytes<32>,
    pub psk: Bytes<32>,
    pub endpoint: Option<SocketAddr>,
    pub allowed_ips: Vec<Prefix>,
    /// Whether the pre-shared key is the all-zero fallback.
    pub psk_is_fallback: bool,
    pub disco_key: Option<Bytes<32>>,
    /// The relay this peer published as its home.
    pub home_relay: Option<Bytes<32>>,
}

/// A peer as a value.
#[verifier::ext_equal]
pub struct PeerFacts {
    pub name: Seq<char>,
    pub node_id: Seq<u8>,
    pub kem_public_key: Seq<u8>,
    pub dh_public_key: Seq<u8>,
    pub psk: Seq<u8>,
    pub endpoint: Option<SocketAddr>,
    pub allowed_ips: Seq<Prefix>,
    pub psk_is_fallback: bool,
    pub disco_key: Option<Bytes<32>>,
    pub home_relay: Option<Seq<u8>>,
}

impl View for Peer {
    type V = PeerFacts;

    open spec fn view(&self) -> PeerFacts {
        PeerFacts {
            name: self.name@,
            node_id: self.node_id@,
            kem_public_key: self.kem_public_key@,
            dh_public_key: self.dh_public_key.0@,
            psk: self.psk.0@,
            endpoint: self.endpoint,
            allowed_ips: self.allowed_ips@,
            psk_is_fallback: self.psk_is_fallback,
            disco_key: self.disco_key,
            home_relay: match self.home_relay {
                Some(id) => Some(id.0@),
                None => None,
            },
        }
    }
}

/// The prefixes in a list; the first message when one is no prefix.
pub open spec fn prefixes_in(list: Seq<Result<Prefix, String>>) -> Result<Seq<Prefix>, Seq<char>>
    decreases list.len(),
{
    if list.len() == 0 {
        Ok(seq![])
    } else {
        match prefixes_in(list.drop_last()) {
            Err(e) => Err(e),
            Ok(init) => match list.last() {
                Ok(p) => Ok(init.push(p)),
                Err(e) => Err(e@),
            },
        }
    }
}

/// Every prefix in a list is valid.
pub open spec fn valid_prefixes(list: Seq<Result<Prefix, String>>) -> bool {
    forall|i: int| 0 <= i < list.len() && (#[trigger] list[i]) is Ok ==> list[i]->Ok_0.wf()
}

proof fn lemma_prefix_error(list: Seq<Result<Prefix, String>>, n: int)
    requires
        0 <= n <= list.len(),
        prefixes_in(list.take(n)) is Err,
    ensures
        prefixes_in(list) == prefixes_in(list.take(n)),
    decreases list.len() - n,
{
    if n < list.len() {
        assert(list.take(n + 1).drop_last() =~= list.take(n));
        lemma_prefix_error(list, n + 1);
    } else {
        assert(list.take(n) =~= list);
    }
}

fn collect_prefixes(list: &Vec<Result<Prefix, String>>, peer: &str) -> (r: Result<
    Vec<Prefix>,
    ConfigError,
>)
    requires
        valid_prefixes(list@),
    ensures
        match (r, prefixes_in(list@)) {
            (Ok(v), Ok(p)) => v@ == p && crate::filter::all_valid(v@),
            (Err(e), Err(m)) => e@ == (Fault::Prefix { peer: peer@, source: m }),
            _ => false,
        },
{
    let mut v: Vec<Prefix> = Vec::new();
    let mut i: usize = 0;
    assert(v@ =~= seq![]);
    while i < list.len()
        invariant
            i <= list@.len(),
            valid_prefixes(list@),
            prefixes_in(list@.take(i as int)) == Ok::<Seq<Prefix>, Seq<char>>(v@),
            crate::filter::all_valid(v@),
        decreases list@.len() - i,
    {
        assert(list@.take(i + 1).drop_last() =~= list@.take(i as int));
        match &list[i] {
            Ok(p) => v.push(*p),
            Err(m) => {
                proof {
                    lemma_prefix_error(list@, i + 1);
                }
                return Err(
                    ConfigError::Prefix { peer: String::from_str(peer), source: m.clone() },
                );
            },
        }
        i = i + 1;
    }
    assert(list@.take(i as int) =~= list@);
    Ok(v)
}

/// Thirty-two zero bytes.
pub open spec fn zero_key() -> Seq<u8> {
    Seq::new(32, |i: int| 0u8)
}

/// The peer that a section of a hand-written roster describes.
pub open spec fn section_peer(s: PeerSection) -> Result<PeerFacts, Fault> {
    match decoded(s.kem_public_key@, KEM_PUBLIC_KEY_LEN as nat, "kem_public_key"@) {
        Err(e) => Err(e),
        Ok(kem) => if !encodes_kem_key(kem) {
            Err(Fault::InvalidKey { peer: s.name@, field: "kem_public_key"@ })
        } else {
            match decoded(s.dh_public_key@, 32, "dh_public_key"@) {
                Err(e) => Err(e),
                Ok(dh) => {
                    let psk = match s.psk {
                        None => Ok(zero_key()),
                        Some(hex) => decoded(hex@, 32, "psk"@),
                    };
                    match psk {
                        Err(e) => Err(e),
                        Ok(psk) => if s.allowed_ips@.len() == 0 {
                            Err(
                                Fault::Unusable(
                                    "peer "@ + quoted_text(s.name@)
                                        + " has no allowed_ips, so no traffic could ever reach it"@,
                                ),
                            )
                        } else {
                            match prefixes_in(s.allowed_ips@) {
                                Err(m) => Err(Fault::Prefix { peer: s.name@, source: m }),
                                Ok(allowed) => Ok(
                                    PeerFacts {
                                        name: s.name@,
                                        node_id: seq![],
                                        kem_public_key: kem,
                                        dh_public_key: dh,
                                        psk,
                                        endpoint: s.endpoint,
                                        allowed_ips: allowed,
                                        psk_is_fallback: s.psk is None,
                                        disco_key: None,
                                        home_relay: None,
                                    },
                                ),
                            }
                        },
                    }
                },
            }
        },
    }
}

/// The name that a netmap peer goes by: its DNS label, or a short prefix of its
/// handle.
pub open spec fn netmap_name(entry: NetmapPeer) -> Seq<char> {
    if entry.dns_name@.len() == 0 {
        let id = lossy_text(entry.node_id@);
        "node-"@ + if id.len() > 8 {
            id.take(8)
        } else {
            id
        }
    } else {
        entry.dns_name@
    }
}

/// The peer that a netmap entry describes. A published home relay counts only
/// when it has the width of a relay id.
pub open spec fn netmap_peer(entry: NetmapPeer) -> Result<PeerFacts, Fault> {
    let name = netmap_name(entry);
    if !encodes_kem_key(entry.kem_public_key@) {
        Err(Fault::InvalidKey { peer: name, field: "kem_public_key"@ })
    } else if entry.dh_public_key@.len() != 32 {
        Err(Fault::InvalidKey { peer: name, field: "dh_public_key"@ })
    } else if entry.allowed_ips@.len() == 0 {
        Err(
            Fault::Unusable(
                "the netmap gave peer "@ + quoted_text(name)
                    + " no allowed_ips, so no traffic could reach it"@,
            ),
        )
    } else {
        match prefixes_in(entry.allowed_ips@) {
            Err(m) => Err(Fault::Prefix { peer: name, source: m }),
            Ok(allowed) => Ok(
                PeerFacts {
                    name,
                    node_id: entry.node_id@,
                    kem_public_key: entry.kem_public_key@,
                    dh_public_key: entry.dh_public_key@,
                    psk: match entry.psk {
                        Some(k) => k.0@,
                        None => zero_key(),
                    },
                    endpoint: entry.endpoint,
                    allowed_ips: allowed,
                    psk_is_fallback: entry.psk is None,
                    disco_key: entry.disco_key,
                    home_relay: if entry.home_relay@.len() == 32 {
                        Some(entry.home_relay@)
                    } else {
                        None
                    },
                },
            ),
        }
    }
}

/// The array of exactly these 32 bytes.
fn array_32(v: &Vec<u8>) -> (r: Bytes<32>)
    requires
        v@.len() == 32,
    ensures
        r.0@ == v@,
{
    let mut bytes = [0u8; 32];
    let mut i: usize = 0;
    while i < 32
        invariant
            i <= 32 == v@.len(),
            forall|j: int| 0 <= j < i ==> bytes@[j] == v@[j],
        decreases 32 - i,
    {
        bytes[i] = v[i];
        i = i + 1;
    }
    assert(bytes@ =~= v@);
    Bytes(bytes)
}

fn zero_bytes() -> (r: Bytes<32>)
    ensures
        r.0@ == zero_key(),
{
    let bytes = [0u8; 32];
    assert(bytes@ =~= zero_key());
    Bytes(bytes)
}

fn copy_bytes(v: &Vec<u8>) -> (r: Vec<u8>)
    ensures
        r@ == v@,
{
    crate::bytes::to_vec(v.as_slice())
}

fn invalid_key(peer: &str, field: &str) -> (e: ConfigError)
    ensures
        e@ == (Fault::InvalidKey { peer: peer@, field: field@ }),
{
    ConfigError::InvalidKey { peer: String::from_str(peer), field: String::from_str(field) }
}

/// The ranges that a peer claims in the routing table.
pub open spec fn claims(allowed: Seq<Prefix>, index: usize) -> Seq<(Prefix, usize)> {
    allowed.map_values(|p: Prefix| (p, index))
}

/// Every claimed range is valid.
pub open spec fn valid_claims(pairs: Seq<(Prefix, usize)>) -> bool {
    forall|i: int| 0 <= i < pairs.len() ==> (#[trigger] pairs[i]).0.wf()
}

fn push_claims(pairs: &mut Vec<(Prefix, usize)>, allowed: &Vec<Prefix>, index: usize)
    requires
        valid_claims(old(pairs)@),
        crate::filter::all_valid(allowed@),
    ensures
        final(pairs)@ == old(pairs)@ + claims(allowed@, index),
        valid_claims(final(pairs)@),
{
    let ghost before = pairs@;
    let ghost all = claims(allowed@, index);
    let mut i: usize = 0;
    assert(before + all.take(0) =~= before);
    while i < allowed.len()
        invariant
            i <= allowed@.len(),
            all == claims(allowed@, index),
            crate::filter::all_valid(allowed@),
            valid_claims(pairs@),
            pairs@ == before + all.take(i as int),
        decreases allowed@.len() - i,
    {
        pairs.push((allowed[i], index));
        assert(all.take(i + 1) =~= all.take(i as int).push(all[i as int]));
        assert(pairs@ =~= before + all.take(i + 1));
        i = i + 1;
    }
    assert(all.take(i as int) =~= all);
}

impl Peer {
    /// Every range is valid.
    pub open spec fn wf(self) -> bool {
        crate::filter::all_valid(self.allowed_ips@)
    }

    /// Builds a roster entry from a section of a hand-written roster.
    pub fn from_section(section: &PeerSection) -> (r: Result<Peer, ConfigError>)
        requires
            valid_prefixes(section.allowed_ips@),
        ensures
            match (r, section_peer(*section)) {
                (Ok(p), Ok(facts)) => p@ == facts && p.wf(),
                (Err(e), Err(fault)) => e@ == fault,
                _ => false,
            },
    {
        let kem_public_key = match decode_hex(
            section.kem_public_key.as_str(),
            KEM_PUBLIC_KEY_LEN,
            "kem_public_key",
        ) {
            Ok(v) => v,
            Err(e) => {
                return Err(e);
            },
        };
        if !kem_key_valid(kem_public_key.as_slice()) {
            return Err(invalid_key(section.name.as_str(), "kem_public_key"));
        }
        let dh = match decode_hex(section.dh_public_key.as_str(), 32, "dh_public_key") {
            Ok(v) => v,
            Err(e) => {
                return Err(e);
            },
        };
        let psk = match &section.psk {
            None => zero_bytes(),
            Some(hex) => match decode_hex(hex.as_str(), 32, "psk") {
                Ok(v) => array_32(&v),
                Err(e) => {
                    return Err(e);
                },
            },
        };
        if section.allowed_ips.len() == 0 {
            let name = quoted(section.name.as_str());
            let mut message = joined("peer ", name.as_str());
            message.append(" has no allowed_ips, so no traffic could ever reach it");
            return Err(ConfigError::Unusable(message));
        }
        let allowed_ips = match collect_prefixes(&section.allowed_ips, section.name.as_str()) {
            Ok(v) => v,
            Err(e) => {
                return Err(e);
            },
        };
        let peer = Peer {
            name: section.name.clone(),
            node_id: Vec::new(),
            kem_public_key,
            dh_public_key: array_32(&dh),
            psk,
            endpoint: section.endpoint,
            allowed_ips,
            psk_is_fallback: section.psk.is_none(),
            disco_key: None,
            home_relay: None,
        };
        assert(peer@.node_id =~= seq![]);
        Ok(peer)
    }

    /// Builds a roster entry from a netmap peer.
    pub fn from_netmap(entry: &NetmapPeer) -> (r: Result<Peer, ConfigError>)
        requires
            valid_prefixes(entry.allowed_ips@),
        ensures
            match (r, netmap_peer(*entry)) {
                (Ok(p), Ok(facts)) => p@ == facts && p.wf(),
                (Err(e), Err(fault)) => e@ == fault,
                _ => false,
            },
    {
        let name = if entry.dns_name.as_str().is_empty() {
            let id = lossy(entry.node_id.as_slice());
            let chars = chars_of(id.as_str());
            let end: usize = if chars.len() > 8 {
                8
            } else {
                chars.len()
            };
            let short = string_of(&chars, 0, end);
            proof {
                assert(short@ =~= if id@.len() > 8 {
                    id@.take(8)
                } else {
                    id@
                });
            }
            joined("node-", short.as_str())
        } else {
            entry.dns_name.clone()
        };
        if !kem_key_valid(entry.kem_public_key.as_slice()) {
            return Err(invalid_key(name.as_str(), "kem_public_key"));
        }
        if entry.dh_public_key.len() != 32 {
            return Err(invalid_key(name.as_str(), "dh_public_key"));
        }
        if entry.allowed_ips.len() == 0 {
            let shown = quoted(name.as_str());
            let mut message = joined("the netmap gave peer ", shown.as_str());
            message.append(" no allowed_ips, so no traffic could reach it");
            return Err(ConfigError::Unusable(message));
        }
        let allowed_ips = match collect_prefixes(&entry.allowed_ips, name.as_str()) {
            Ok(v) => v,
            Err(e) => {
                return Err(e);
            },
        };
        let psk = match entry.psk {
            Some(k) => k,
            None => zero_bytes(),
        };
        let home_relay = if entry.home_relay.len() == 32 {
            Some(array_32(&entry.home_relay))
        } else {
            None
        };
        Ok(
            Peer {
                name,
                node_id: copy_bytes(&entry.node_id),
                kem_public_key: copy_bytes(&entry.kem_public_key),
                dh_public_key: array_32(&entry.dh_public_key),
                psk,
                endpoint: entry.endpoint,
                allowed_ips,
                psk_is_fallback: entry.psk.is_none(),
                disco_key: entry.disco_key,
                home_relay,
            },
        )
    }
}

/// How to reach the coordination server.
pub struct ControlSection {
    pub server: String,
    /// The server's static encapsulation key, hex.
    pub server_kem_pin: String,
    /// The server's verification key, hex.
    pub server_verify_pin: String,
    pub identity_key_file: String,
    pub setup_key: Option<String>,
    pub cache_file: Option<String>,
    pub relay_ca_file: Option<String>,
}

/// This node, as a file describes it. Each address is an error message when its
/// text is not an interface address.
#[derive(Debug)]
pub struct NodeSection {
    pub listen: SocketAddr,
    pub port_mapping: bool,
    pub interface: String,
    pub network_mode: NetworkMode,
    pub userspace_socks5_listen: Option<SocketAddr>,
    pub userspace_publish: Vec<PublishSection>,
    pub addresses: Vec<Result<InterfaceAddress, String>>,
    pub private_key_file: String,
    pub psk_epoch: u32,
    pub nat64: crate::nat64::Mode,
}

/// A whole configuration file.
pub struct File {
    pub node: NodeSection,
    pub peers: Vec<PeerSection>,
    pub control: Option<ControlSection>,
}

/// One relay of the registry.
#[derive(Debug)]
pub struct Relay {
    pub relay_id: Bytes<32>,
    pub address: String,
    pub tls_name: String,
    pub verify_key: Vec<u8>,
}

/// What the coordination server sent.
pub struct Netmap {
    pub addresses: Vec<Result<InterfaceAddress, String>>,
    pub peers: Vec<NetmapPeer>,
    pub relays: Vec<Relay>,
    pub psk_epoch: u32,
    pub node_id: Vec<u8>,
    pub packet_filter: Vec<FilterRule>,
    pub egress_filter: Vec<EgressRule>,
    pub ssh_filter: Vec<FilterRule>,
    pub ssh_filter_present: bool,
}

/// A peer the netmap carried that this node could not use.
#[derive(Debug)]
pub struct SkippedPeer {
    pub handle: String,
    pub dns_name: String,
    pub reason: String,
}

/// A skipped peer as a value: its handle, its label, and the reason.
pub open spec fn skip_facts(s: SkippedPeer) -> (Seq<char>, Seq<char>, Seq<char>) {
    (s.handle@, s.dns_name@, s.reason@)
}

impl SkippedPeer {
    /// The peer's label, or its handle when it has none, and the reason.
    pub fn to_text(&self) -> (s: String)
        ensures
            s@ == (if self.dns_name@.len() == 0 {
                self.handle@
            } else {
                self.dns_name@
            }) + ": "@ + self.reason@,
    {
        let mut s = if self.dns_name.as_str().is_empty() {
            self.handle.clone()
        } else {
            self.dns_name.clone()
        };
        s.append(": ");
        s.append(self.reason.as_str());
        s
    }
}

/// The seeds of a node's long-term keys.
#[derive(Clone, Copy)]
pub struct KeySeeds {
    pub kem: Bytes<64>,
    pub dh: Bytes<32>,
}

impl KeySeeds {
    /// The public halves: the encapsulation key and the X25519 key. The first
    /// is one that a peer takes.
    pub fn public_keys(&self) -> (r: (Vec<u8>, Bytes<32>))
        ensures
            r.0@ == mlkem768_public(self.kem.0@),
            encodes_kem_key(r.0@),
            r.1.0@ == x25519_public(self.dh.0@),
    {
        (mlkem768_public_key(&self.kem), x25519_public_key(&self.dh))
    }
}

/// What a server-managed node still configures locally.
pub struct LocalSettings {
    pub keys: KeySeeds,
    pub listen: SocketAddr,
    pub port_mapping: bool,
    pub interface: String,
    pub network_mode: NetworkMode,
    pub userspace_socks5_listen: Option<SocketAddr>,
    pub userspace_publish: Vec<PublishSection>,
    pub nat64: Option<Nat64Prefix>,
    pub relay_ca_file: Option<String>,
}

/// A loaded, validated configuration.
pub struct Config {
    pub keys: KeySeeds,
    pub listen: SocketAddr,
    pub port_mapping: bool,
    pub interface: String,
    pub network_mode: NetworkMode,
    pub userspace_socks5_listen: Option<SocketAddr>,
    pub userspace_publish: Vec<PublishSection>,
    pub nat64: Option<Nat64Prefix>,
    pub addresses: Vec<InterfaceAddress>,
    pub psk_epoch: u32,
    /// This node's server-assigned handle. Empty for a hand-written roster.
    pub node_id: Vec<u8>,
    pub relays: Vec<Relay>,
    pub relay_ca_file: Option<String>,
    pub peers: Vec<Peer>,
    pub routes: AllowedIps,
    /// Peers the netmap carried that this node could not use.
    pub skipped: Vec<SkippedPeer>,
    pub filter: PacketFilter,
    pub ssh: SshFilter,
}

/// The interface addresses in a list; the first message when one is none.
pub open spec fn interfaces_in(list: Seq<Result<InterfaceAddress, String>>) -> Result<
    Seq<InterfaceAddress>,
    Seq<char>,
>
    decreases list.len(),
{
    if list.len() == 0 {
        Ok(seq![])
    } else {
        match interfaces_in(list.drop_last()) {
            Err(e) => Err(e),
            Ok(init) => match list.last() {
                Ok(a) => Ok(init.push(a)),
                Err(e) => Err(e@),
            },
        }
    }
}

/// Every interface address in a list is valid.
pub open spec fn valid_interfaces(list: Seq<Result<InterfaceAddress, String>>) -> bool {
    forall|i: int| 0 <= i < list.len() && (#[trigger] list[i]) is Ok ==> list[i]->Ok_0.wf()
}

/// Every interface address is valid.
pub open spec fn all_wf(list: Seq<InterfaceAddress>) -> bool {
    forall|i: int| 0 <= i < list.len() ==> (#[trigger] list[i]).wf()
}

proof fn lemma_interface_error(list: Seq<Result<InterfaceAddress, String>>, n: int)
    requires
        0 <= n <= list.len(),
        interfaces_in(list.take(n)) is Err,
    ensures
        interfaces_in(list) == interfaces_in(list.take(n)),
    decreases list.len() - n,
{
    if n < list.len() {
        assert(list.take(n + 1).drop_last() =~= list.take(n));
        lemma_interface_error(list, n + 1);
    } else {
        assert(list.take(n) =~= list);
    }
}

/// The addresses of this node; an error when one is malformed, or there is
/// none, for which the message is given.
pub open spec fn node_addresses(
    list: Seq<Result<InterfaceAddress, String>>,
    none: Seq<char>,
) -> Result<Seq<InterfaceAddress>, Fault> {
    match interfaces_in(list) {
        Err(m) => Err(Fault::Prefix { peer: "node"@, source: m }),
        Ok(v) => if v.len() == 0 {
            Err(Fault::Unusable(none))
        } else {
            Ok(v)
        },
    }
}

fn collect_interfaces(list: &Vec<Result<InterfaceAddress, String>>, none: &str) -> (r: Result<
    Vec<InterfaceAddress>,
    ConfigError,
>)
    requires
        valid_interfaces(list@),
    ensures
        match (r, node_addresses(list@, none@)) {
            (Ok(v), Ok(a)) => v@ == a && all_wf(v@),
            (Err(e), Err(f)) => e@ == f,
            _ => false,
        },
{
    let mut v: Vec<InterfaceAddress> = Vec::new();
    let mut i: usize = 0;
    assert(v@ =~= seq![]);
    while i < list.len()
        invariant
            i <= list@.len(),
            valid_interfaces(list@),
            interfaces_in(list@.take(i as int)) == Ok::<Seq<InterfaceAddress>, Seq<char>>(v@),
            all_wf(v@),
        decreases list@.len() - i,
    {
        assert(list@.take(i + 1).drop_last() =~= list@.take(i as int));
        match &list[i] {
            Ok(a) => v.push(*a),
            Err(m) => {
                proof {
                    lemma_interface_error(list@, i + 1);
                }
                return Err(
                    ConfigError::Prefix { peer: String::from_str("node"), source: m.clone() },
                );
            },
        }
        i = i + 1;
    }
    assert(list@.take(i as int) =~= list@);
    if v.len() == 0 {
        return Err(unusable(none));
    }
    Ok(v)
}

/// A roster as a value: the peers, and the ranges that each claims.
#[verifier::ext_equal]
pub struct RosterFacts {
    pub peers: Seq<PeerFacts>,
    pub pairs: Seq<(Prefix, usize)>,
}

/// The roster that the first `n` sections describe. A name that an earlier
/// section has is refused, and so is the first section that describes no peer.
pub open spec fn file_roster(sections: Seq<PeerSection>, n: nat) -> Result<RosterFacts, Fault>
    decreases n,
{
    if n == 0 {
        Ok(RosterFacts { peers: seq![], pairs: seq![] })
    } else {
        match file_roster(sections, (n - 1) as nat) {
            Err(e) => Err(e),
            Ok(before) => {
                let s = sections[n - 1];
                if named_before(sections, n - 1) {
                    Err(Fault::DuplicatePeerName(s.name@))
                } else {
                    match section_peer(s) {
                        Err(e) => Err(e),
                        Ok(p) => Ok(
                            RosterFacts {
                                peers: before.peers.push(p),
                                pairs: before.pairs + claims(p.allowed_ips, (n - 1) as usize),
                            },
                        ),
                    }
                }
            },
        }
    }
}

/// Whether a section before `k` has the name of section `k`.
pub open spec fn named_before(sections: Seq<PeerSection>, k: int) -> bool {
    exists|i: int| 0 <= i < k && (#[trigger] sections[i]).name@ == sections[k].name@
}

proof fn lemma_roster_error(sections: Seq<PeerSection>, m: nat, n: nat)
    requires
        m <= n,
        file_roster(sections, m) is Err,
    ensures
        file_roster(sections, n) == file_roster(sections, m),
    decreases n - m,
{
    if m < n {
        lemma_roster_error(sections, m, (n - 1) as nat);
    }
}

/// Peers as values.
pub open spec fn peer_facts(peers: Seq<Peer>) -> Seq<PeerFacts> {
    peers.map_values(|p: Peer| p@)
}

/// Every peer is valid.
pub open spec fn all_peers_wf(peers: Seq<Peer>) -> bool {
    forall|i: int| 0 <= i < peers.len() ==> (#[trigger] peers[i]).wf()
}

/// Every section has valid ranges.
pub open spec fn valid_sections(sections: Seq<PeerSection>) -> bool {
    forall|i: int| 0 <= i < sections.len() ==> valid_prefixes((#[trigger] sections[i]).allowed_ips@)
}

fn read_roster(sections: Vec<PeerSection>) -> (r: Result<
    (Vec<Peer>, Vec<(Prefix, usize)>),
    ConfigError,
>)
    requires
        valid_sections(sections@),
    ensures
        match (r, file_roster(sections@, sections@.len())) {
            (Ok((peers, pairs)), Ok(f)) => {
                &&& peer_facts(peers@) == f.peers
                &&& pairs@ == f.pairs
                &&& all_peers_wf(peers@)
                &&& valid_claims(pairs@)
            },
            (Err(e), Err(f)) => e@ == f,
            _ => false,
        },
{
    let mut peers: Vec<Peer> = Vec::new();
    let mut pairs: Vec<(Prefix, usize)> = Vec::new();
    let ghost all = sections@;
    let total: usize = sections.len();
    let mut n: usize = 0;
    assert(peer_facts(peers@) =~= seq![]);
    assert(pairs@ =~= seq![]);
    while n < total
        invariant
            n <= total == all.len(),
            sections@ == all,
            valid_sections(all),
            file_roster(all, n as nat) is Ok,
            peer_facts(peers@) == file_roster(all, n as nat)->Ok_0.peers,
            pairs@ == file_roster(all, n as nat)->Ok_0.pairs,
            all_peers_wf(peers@),
            valid_claims(pairs@),
        decreases total - n,
    {
        let mut i: usize = 0;
        while i < n && !same(sections[i].name.as_str(), sections[n].name.as_str())
            invariant
                i <= n < all.len(),
                sections@ == all,
                forall|j: int| 0 <= j < i ==> (#[trigger] all[j]).name@ != all[n as int].name@,
            decreases n - i,
        {
            i = i + 1;
        }
        if i < n {
            proof {
                assert(all[i as int].name@ == all[n as int].name@);
                assert(named_before(all, n as int));
                lemma_roster_error(all, (n + 1) as nat, all.len());
            }
            return Err(ConfigError::DuplicatePeerName(sections[n].name.clone()));
        }
        assert(!named_before(all, n as int));
        let ghost before = peers@;
        match Peer::from_section(&sections[n]) {
            Ok(peer) => {
                push_claims(&mut pairs, &peer.allowed_ips, n);
                peers.push(peer);
                assert(peer_facts(peers@) =~= peer_facts(before).push(peer@));
            },
            Err(e) => {
                proof {
                    lemma_roster_error(all, (n + 1) as nat, all.len());
                }
                return Err(e);
            },
        }
        n = n + 1;
    }
    Ok((peers, pairs))
}

/// What discovery of a netmap's roster gives: the peers that can be used, their
/// handles, those that were skipped, and the ranges claimed.
#[verifier::ext_equal]
pub struct NetmapRoster {
    pub peers: Seq<PeerFacts>,
    pub handles: Seq<Seq<u8>>,
    pub skipped: Seq<(Seq<char>, Seq<char>, Seq<char>)>,
    pub pairs: Seq<(Prefix, usize)>,
}

/// The roster that the first `n` entries of a netmap describe.
///
/// One unusable peer does not cost the whole netmap: it is skipped, with the
/// reason, and claims no range.
pub open spec fn netmap_roster(entries: Seq<NetmapPeer>, n: nat) -> NetmapRoster
    decreases n,
{
    if n == 0 {
        NetmapRoster { peers: seq![], handles: seq![], skipped: seq![], pairs: seq![] }
    } else {
        let before = netmap_roster(entries, (n - 1) as nat);
        let entry = entries[n - 1];
        match netmap_peer(entry) {
            Ok(p) => NetmapRoster {
                peers: before.peers.push(p),
                handles: before.handles.push(entry.node_id@),
                pairs: before.pairs + claims(p.allowed_ips, before.peers.len() as usize),
                ..before
            },
            Err(fault) => NetmapRoster {
                skipped: before.skipped.push(
                    (lossy_text(entry.node_id@), entry.dns_name@, fault.text()),
                ),
                ..before
            },
        }
    }
}

/// The relays as this node can reach them.
pub open spec fn reachable_relays(relays: Seq<Relay>, nat64: Option<Nat64Prefix>, r: Seq<Relay>) -> bool {
    &&& r.len() == relays.len()
    &&& forall|i: int|
        0 <= i < relays.len() ==> {
            &&& (#[trigger] r[i]).relay_id == relays[i].relay_id
            &&& r[i].address@ == authority_text(nat64, relays[i].address@)
            &&& r[i].tls_name@ == relays[i].tls_name@
            &&& r[i].verify_key@ == relays[i].verify_key@
        }
}

fn rewrite_relays(relays: &Vec<Relay>, nat64: Option<Nat64Prefix>) -> (r: Vec<Relay>)
    requires
        nat64 is Some ==> nat64->0.wf(),
    ensures
        reachable_relays(relays@, nat64, r@),
{
    let mut r: Vec<Relay> = Vec::new();
    let mut i: usize = 0;
    while i < relays.len()
        invariant
            i <= relays@.len(),
            nat64 is Some ==> nat64->0.wf(),
            reachable_relays(relays@.take(i as int), nat64, r@),
        decreases relays@.len() - i,
    {
        let relay = &relays[i];
        let ghost before = r@;
        r.push(
            Relay {
                relay_id: relay.relay_id,
                address: rewrite_authority(nat64, relay.address.as_str()),
                tls_name: relay.tls_name.clone(),
                verify_key: copy_bytes(&relay.verify_key),
            },
        );
        proof {
            let upto = relays@.take(i + 1);
            assert forall|k: int| 0 <= k < upto.len() implies {
                &&& (#[trigger] r@[k]).relay_id == upto[k].relay_id
                &&& r@[k].address@ == authority_text(nat64, upto[k].address@)
                &&& r@[k].tls_name@ == upto[k].tls_name@
                &&& r@[k].verify_key@ == upto[k].verify_key@
            } by {
                if k < i {
                    assert(r@[k] == before[k]);
                    assert(upto[k] == relays@.take(i as int)[k]);
                }
            }
        }
        i = i + 1;
    }
    assert(relays@.take(i as int) =~= relays@);
    r
}

/// The two halves of a private key seed.
pub open spec fn seed_halves(seed: Seq<u8>, keys: KeySeeds) -> bool {
    keys.kem.0@ == seed.take(64) && keys.dh.0@ == seed.subrange(64, 96)
}

/// Splits a private key seed.
pub fn split_seed(seed: &Vec<u8>) -> (r: Result<KeySeeds, ConfigError>)
    ensures
        match r {
            Ok(keys) => seed@.len() >= 96 && seed_halves(seed@, keys),
            Err(e) => seed@.len() < 96 && e@ == (Fault::Hex {
                field: "private_key_file"@,
                reason: "expected 96 bytes of seed"@,
            }),
        },
{
    if seed.len() < 96 {
        return Err(
            ConfigError::Hex {
                field: String::from_str("private_key_file"),
                reason: String::from_str("expected 96 bytes of seed"),
            },
        );
    }
    let mut kem = [0u8; 64];
    let mut i: usize = 0;
    while i < 64
        invariant
            i <= 64,
            seed@.len() >= 96,
            forall|j: int| 0 <= j < i ==> kem@[j] == seed@[j],
        decreases 64 - i,
    {
        kem[i] = seed[i];
        i = i + 1;
    }
    let mut dh = [0u8; 32];
    let mut k: usize = 0;
    while k < 32
        invariant
            k <= 32,
            seed@.len() >= 96,
            forall|j: int| 0 <= j < k ==> dh@[j] == seed@[64 + j],
        decreases 32 - k,
    {
        dh[k] = seed[64 + k];
        k = k + 1;
    }
    let keys = KeySeeds { kem: Bytes(kem), dh: Bytes(dh) };
    proof {
        assert(keys.kem.0@ =~= seed@.take(64));
        assert(keys.dh.0@ =~= seed@.subrange(64, 96));
    }
    Ok(keys)
}

/// What a file and the text of its key say: the seed, the addresses, and the
/// roster, or the first thing that is wrong.
pub open spec fn file_facts(file: File, seed: Result<String, ConfigError>) -> Result<
    (Seq<u8>, Seq<InterfaceAddress>, RosterFacts),
    Fault,
> {
    if file.control is Some {
        Err(
            Fault::Unusable(
                "this configuration names a [control] server, so its peers come from a netmap; load it with Config::from_netmap"@,
            ),
        )
    } else {
        match key_facts(seed) {
            Err(e) => Err(e),
            Ok(seed) => match node_addresses(
                file.node.addresses@,
                "node.addresses is empty; the interface would have no address"@,
            ) {
                Err(e) => Err(e),
                Ok(addresses) => match file_roster(file.peers@, file.peers@.len()) {
                    Err(e) => Err(e),
                    Ok(roster) => match first_conflict(roster.pairs) {
                        Some(c) => Err(Fault::Conflict(c)),
                        None => match userspace_fault(
                            file.node.network_mode,
                            file.node.userspace_socks5_listen,
                            file.node.userspace_publish@,
                        ) {
                            Some(f) => Err(f),
                            None => Ok((seed, addresses, roster)),
                        },
                    },
                },
            },
        }
    }
}

/// The key seeds that the text of a private key holds.
pub open spec fn key_facts(seed: Result<String, ConfigError>) -> Result<Seq<u8>, Fault> {
    match seed {
        Err(e) => Err(e@),
        Ok(text) => decoded(text@, PRIVATE_KEY_LEN as nat, "private_key_file"@),
    }
}

/// This node's keys alone, from the text of its private key or the reason why
/// that could not be read. A node that has just been created has no peers yet.
pub fn load_keys(seed: Result<String, ConfigError>) -> (r: Result<KeySeeds, ConfigError>)
    ensures
        match (r, key_facts(seed)) {
            (Ok(keys), Ok(bytes)) => seed_halves(bytes, keys),
            (Err(e), Err(f)) => e@ == f,
            _ => false,
        },
{
    let text = match seed {
        Ok(text) => text,
        Err(e) => {
            return Err(e);
        },
    };
    match decode_hex(text.as_str(), PRIVATE_KEY_LEN, "private_key_file") {
        Ok(bytes) => split_seed(&bytes),
        Err(e) => Err(e),
    }
}

/// What a netmap says: the addresses and the roster, or what is wrong.
pub open spec fn netmap_facts(local: LocalSettings, netmap: Netmap) -> Result<
    (Seq<InterfaceAddress>, NetmapRoster),
    Fault,
> {
    match userspace_fault(
        local.network_mode,
        local.userspace_socks5_listen,
        local.userspace_publish@,
    ) {
        Some(f) => Err(f),
        None => match node_addresses(
            netmap.addresses@,
            "the netmap assigned this node no address, so the interface would have none and every packet it originated would be unanswerable"@,
        ) {
            Err(e) => Err(e),
            Ok(addresses) => {
                let roster = netmap_roster(netmap.peers@, netmap.peers@.len());
                match first_conflict(roster.pairs) {
                    Some(c) => Err(Fault::Conflict(c)),
                    None => Ok((addresses, roster)),
                }
            },
        },
    }
}

impl Config {
    /// Every part is valid.
    pub open spec fn wf(self) -> bool {
        &&& all_wf(self.addresses@)
        &&& all_peers_wf(self.peers@)
        &&& self.routes.wf()
        &&& self.filter.wf()
        &&& self.ssh.wf()
    }

    /// A configuration made of a file: its keys, addresses, and roster.
    pub open spec fn holds_roster(
        self,
        file: File,
        seed: Seq<u8>,
        addresses: Seq<InterfaceAddress>,
        roster: RosterFacts,
    ) -> bool {
        &&& seed_halves(seed, self.keys)
        &&& self.listen == file.node.listen
        &&& self.port_mapping == file.node.port_mapping
        &&& self.interface == file.node.interface
        &&& self.network_mode == file.node.network_mode
        &&& self.userspace_socks5_listen == file.node.userspace_socks5_listen
        &&& self.userspace_publish == file.node.userspace_publish
        &&& self.nat64 is None
        &&& self.addresses@ == addresses
        &&& self.psk_epoch == file.node.psk_epoch
        &&& self.node_id@.len() == 0
        &&& self.relays@.len() == 0
        &&& self.relay_ca_file is None
        &&& peer_facts(self.peers@) == roster.peers
        &&& self.routes.ranges@ == roster.pairs
        &&& self.skipped@.len() == 0
        &&& self.filter.ingress is None
        &&& self.filter.egress is None
        &&& self.ssh.0 is None
    }

    /// A configuration made of a netmap and what is configured locally.
    pub open spec fn holds_netmap(
        self,
        local: LocalSettings,
        netmap: Netmap,
        addresses: Seq<InterfaceAddress>,
        roster: NetmapRoster,
    ) -> bool {
        &&& self.keys == local.keys
        &&& self.listen == local.listen
        &&& self.port_mapping == local.port_mapping
        &&& self.interface == local.interface
        &&& self.network_mode == local.network_mode
        &&& self.userspace_socks5_listen == local.userspace_socks5_listen
        &&& self.userspace_publish == local.userspace_publish
        &&& self.nat64 == local.nat64
        &&& self.addresses@ == addresses
        &&& self.psk_epoch == netmap.psk_epoch
        &&& self.node_id@ == netmap.node_id@
        &&& reachable_relays(netmap.relays@, local.nat64, self.relays@)
        &&& self.relay_ca_file == local.relay_ca_file
        &&& peer_facts(self.peers@) == roster.peers
        &&& self.routes.ranges@ == roster.pairs
        &&& self.skipped@.map_values(|s: SkippedPeer| skip_facts(s)) == roster.skipped
        &&& rule_set(self.filter.ingress) == Some(
            compiled_rules(netmap.packet_filter@, roster.handles),
        )
        &&& rule_set(self.filter.egress) == Some(
            compiled_egresses(netmap.egress_filter@, roster.handles),
        )
        &&& rule_set(self.ssh.0) == if netmap.ssh_filter_present {
            Some(compiled_rules(netmap.ssh_filter@, roster.handles))
        } else {
            None
        }
    }

    /// Whether a roster carries pre-shared keys, so that its file is as
    /// sensitive as the private key.
    pub fn has_psk(file: &File) -> (r: bool)
        ensures
            r == exists|i: int| 0 <= i < file.peers@.len() && (#[trigger] file.peers@[i]).psk is Some,
    {
        let mut i: usize = 0;
        while i < file.peers.len()
            invariant
                i <= file.peers@.len(),
                forall|j: int| 0 <= j < i ==> (#[trigger] file.peers@[j]).psk is None,
            decreases file.peers@.len() - i,
        {
            if file.peers[i].psk.is_some() {
                assert(file.peers@[i as int].psk is Some);
                return true;
            }
            i = i + 1;
        }
        false
    }

    /// Builds a configuration from a file and the text of its private key, or
    /// the reason why that could not be read.
    pub fn from_file(file: File, seed: Result<String, ConfigError>) -> (r: Result<Config, ConfigError>)
        requires
            valid_interfaces(file.node.addresses@),
            valid_sections(file.peers@),
        ensures
            match (r, file_facts(file, seed)) {
                (Err(e), Err(f)) => e@ == f,
                (Ok(c), Ok((seed, addresses, roster))) => c.wf() && c.holds_roster(
                    file,
                    seed,
                    addresses,
                    roster,
                ),
                _ => false,
            },
    {
        if file.control.is_some() {
            return Err(
                unusable(
                    "this configuration names a [control] server, so its peers come from a netmap; load it with Config::from_netmap",
                ),
            );
        }
        let keys = match load_keys(seed) {
            Ok(keys) => keys,
            Err(e) => {
                return Err(e);
            },
        };
        let addresses = match collect_interfaces(
            &file.node.addresses,
            "node.addresses is empty; the interface would have no address",
        ) {
            Ok(v) => v,
            Err(e) => {
                return Err(e);
            },
        };
        let (peers, pairs) = match read_roster(file.peers) {
            Ok(v) => v,
            Err(e) => {
                return Err(e);
            },
        };
        let routes = match AllowedIps::build(pairs) {
            Ok(v) => v,
            Err(c) => {
                return Err(ConfigError::Conflict(c));
            },
        };
        match validate_userspace(
            file.node.network_mode,
            file.node.userspace_socks5_listen,
            &file.node.userspace_publish,
        ) {
            Ok(()) => {},
            Err(e) => {
                return Err(e);
            },
        }
        Ok(
            Config {
                keys,
                listen: file.node.listen,
                port_mapping: file.node.port_mapping,
                interface: file.node.interface,
                network_mode: file.node.network_mode,
                userspace_socks5_listen: file.node.userspace_socks5_listen,
                userspace_publish: file.node.userspace_publish,
                nat64: None,
                addresses,
                psk_epoch: file.node.psk_epoch,
                node_id: Vec::new(),
                relays: Vec::new(),
                relay_ca_file: None,
                peers,
                routes,
                skipped: Vec::new(),
                filter: PacketFilter::unrestricted(),
                ssh: SshFilter::absent(),
            },
        )
    }

    /// Index of the first peer named `name`.
    pub fn peer_index(&self, name: &str) -> (r: Option<usize>)
        ensures
            match r {
                Some(i) => {
                    &&& i < self.peers@.len()
                    &&& self.peers@[i as int].name@ == name@
                    &&& forall|j: int| 0 <= j < i ==> (#[trigger] self.peers@[j]).name@ != name@
                },
                None => forall|j: int|
                    0 <= j < self.peers@.len() ==> (#[trigger] self.peers@[j]).name@ != name@,
            },
    {
        let mut i: usize = 0;
        while i < self.peers.len()
            invariant
                i <= self.peers@.len(),
                forall|j: int| 0 <= j < i ==> (#[trigger] self.peers@[j]).name@ != name@,
            decreases self.peers@.len() - i,
        {
            if same(self.peers[i].name.as_str(), name) {
                return Some(i);
            }
            i = i + 1;
        }
        None
    }

    /// Builds a configuration from a netmap; `local` supplies what the server
    /// does not and should not know.
    pub fn from_netmap(local: LocalSettings, netmap: &Netmap) -> (r: Result<Config, ConfigError>)
        requires
            valid_interfaces(netmap.addresses@),
            forall|i: int|
                0 <= i < netmap.peers@.len() ==> valid_prefixes(
                    (#[trigger] netmap.peers@[i]).allowed_ips@,
                ),
            forall|i: int|
                0 <= i < netmap.egress_filter@.len() ==> valid_cidrs(
                    #[trigger] netmap.egress_filter@[i],
                ),
            local.nat64 is Some ==> local.nat64->0.wf(),
        ensures
            match (r, netmap_facts(local, *netmap)) {
                (Err(e), Err(f)) => e@ == f,
                (Ok(c), Ok((addresses, roster))) => c.wf() && c.holds_netmap(
                    local,
                    *netmap,
                    addresses,
                    roster,
                ),
                _ => false,
            },
    {
        match validate_userspace(
            local.network_mode,
            local.userspace_socks5_listen,
            &local.userspace_publish,
        ) {
            Ok(()) => {},
            Err(e) => {
                return Err(e);
            },
        }
        let addresses = match collect_interfaces(
            &netmap.addresses,
            "the netmap assigned this node no address, so the interface would have none and every packet it originated would be unanswerable",
        ) {
            Ok(v) => v,
            Err(e) => {
                return Err(e);
            },
        };
        let mut peers: Vec<Peer> = Vec::new();
        let mut handles: Vec<Vec<u8>> = Vec::new();
        let mut skipped: Vec<SkippedPeer> = Vec::new();
        let mut pairs: Vec<(Prefix, usize)> = Vec::new();
        let ghost facts = |s: SkippedPeer| skip_facts(s);
        let mut n: usize = 0;
        proof {
            assert(peer_facts(peers@) =~= seq![]);
            assert(byte_strings(handles@) =~= seq![]);
            assert(skipped@.map_values(facts) =~= seq![]);
            assert(pairs@ =~= seq![]);
        }
        while n < netmap.peers.len()
            invariant
                n <= netmap.peers@.len(),
                forall|i: int|
                    0 <= i < netmap.peers@.len() ==> valid_prefixes(
                        (#[trigger] netmap.peers@[i]).allowed_ips@,
                    ),
                facts == (|s: SkippedPeer| skip_facts(s)),
                peer_facts(peers@) == netmap_roster(netmap.peers@, n as nat).peers,
                byte_strings(handles@) == netmap_roster(netmap.peers@, n as nat).handles,
                skipped@.map_values(facts) == netmap_roster(netmap.peers@, n as nat).skipped,
                pairs@ == netmap_roster(netmap.peers@, n as nat).pairs,
                all_peers_wf(peers@),
                valid_claims(pairs@),
            decreases netmap.peers@.len() - n,
        {
            let entry = &netmap.peers[n];
            match Peer::from_netmap(entry) {
                Ok(peer) => {
                    let ghost before = peers@;
                    let ghost named = handles@;
                    let index: usize = peers.len();
                    push_claims(&mut pairs, &peer.allowed_ips, index);
                    peers.push(peer);
                    handles.push(copy_bytes(&entry.node_id));
                    proof {
                        assert(peer_facts(peers@) =~= peer_facts(before).push(peer@));
                        assert(byte_strings(handles@) =~= byte_strings(named).push(
                            entry.node_id@,
                        ));
                    }
                },
                Err(reason) => {
                    let ghost before = skipped@;
                    let skip = SkippedPeer {
                        handle: lossy(entry.node_id.as_slice()),
                        dns_name: entry.dns_name.clone(),
                        reason: reason.to_text(),
                    };
                    skipped.push(skip);
                    assert(skipped@.map_values(facts) =~= before.map_values(facts).push(
                        skip_facts(skip),
                    ));
                },
            }
            n = n + 1;
        }
        let routes = match AllowedIps::build(pairs) {
            Ok(v) => v,
            Err(c) => {
                return Err(ConfigError::Conflict(c));
            },
        };
        let filter = PacketFilter::compile(&netmap.packet_filter, &netmap.egress_filter, &handles);
        let ssh = SshFilter::compile(&netmap.ssh_filter, netmap.ssh_filter_present, &handles);
        let relays = rewrite_relays(&netmap.relays, local.nat64);
        Ok(
            Config {
                keys: local.keys,
                listen: local.listen,
                port_mapping: local.port_mapping,
                interface: local.interface,
                network_mode: local.network_mode,
                userspace_socks5_listen: local.userspace_socks5_listen,
                userspace_publish: local.userspace_publish,
                nat64: local.nat64,
                addresses,
                psk_epoch: netmap.psk_epoch,
                node_id: copy_bytes(&netmap.node_id),
                relays,
                relay_ca_file: local.relay_ca_file,
                peers,
                routes,
                skipped,
                filter,
                ssh,
            },
        )
    }
}

/// A skipped entry changes nothing for the others: the peers, the handles, and
/// the ranges are what they would be without it.
pub proof fn a_skipped_peer_costs_nothing_else(entries: Seq<NetmapPeer>, n: nat)
    requires
        0 < n <= entries.len(),
        netmap_peer(entries[n - 1]) is Err,
    ensures
        ({
            let before = netmap_roster(entries, (n - 1) as nat);
            let after = netmap_roster(entries, n);
            &&& after.peers == before.peers
            &&& after.handles == before.handles
            &&& after.pairs == before.pairs
            &&& after.skipped.len() == before.skipped.len() + 1
        }),
{
}

/// Every entry of a netmap is either a peer or skipped, and rules name peers by
/// the handle at the same position.
pub proof fn every_entry_is_accounted_for(entries: Seq<NetmapPeer>, n: nat)
    requires
        n <= entries.len(),
    ensures
        netmap_roster(entries, n).peers.len() + netmap_roster(entries, n).skipped.len() == n,
        netmap_roster(entries, n).handles.len() == netmap_roster(entries, n).peers.len(),
        forall|i: int|
            0 <= i < netmap_roster(entries, n).peers.len() ==> (#[trigger] netmap_roster(
                entries,
                n,
            ).peers[i]).node_id == netmap_roster(entries, n).handles[i],
    decreases n,
{
    if n > 0 {
        every_entry_is_accounted_for(entries, (n - 1) as nat);
        let before = netmap_roster(entries, (n - 1) as nat);
        let after = netmap_roster(entries, n);
        assert forall|i: int| 0 <= i < after.peers.len() implies (#[trigger] after.peers[i]).node_id
            == after.handles[i] by {
            if i < before.peers.len() {
                assert(before.peers[i].node_id == before.handles[i]);
            }
        }
    }
}

/// Whether a routing table holds exactly what the peers claim: every range of
/// every peer under the peer's own position, and nothing else.
pub open spec fn is_the_claims_of(ranges: Seq<(Prefix, usize)>, peers: Seq<PeerFacts>) -> bool {
    &&& forall|i: int, k: int|
        0 <= i < peers.len() && 0 <= k < peers[i].allowed_ips.len() ==> ranges.contains(
            (#[trigger] peers[i].allowed_ips[k], i as usize),
        )
    &&& forall|m: int|
        0 <= m < ranges.len() ==> (#[trigger] ranges[m]).1 < peers.len()
            && peers[ranges[m].1 as int].allowed_ips.contains(ranges[m].0)
}

proof fn lemma_claims_grow(
    ranges: Seq<(Prefix, usize)>,
    peers: Seq<PeerFacts>,
    p: PeerFacts,
)
    requires
        is_the_claims_of(ranges, peers),
        peers.len() < usize::MAX,
    ensures
        is_the_claims_of(
            ranges + claims(p.allowed_ips, peers.len() as usize),
            peers.push(p),
        ),
{
    let index = peers.len() as usize;
    let new = claims(p.allowed_ips, index);
    let all = ranges + new;
    let grown = peers.push(p);
    assert forall|i: int, k: int|
        0 <= i < grown.len() && 0 <= k < grown[i].allowed_ips.len() implies all.contains(
        (#[trigger] grown[i].allowed_ips[k], i as usize),
    ) by {
        if i < peers.len() {
            assert(ranges.contains((peers[i].allowed_ips[k], i as usize)));
            let m = choose|m: int|
                0 <= m < ranges.len() && ranges[m] == (peers[i].allowed_ips[k], i as usize);
            assert(all[m] == ranges[m]);
        } else {
            assert(all[ranges.len() + k] == new[k]);
        }
    }
    assert forall|m: int| 0 <= m < all.len() implies (#[trigger] all[m]).1 < grown.len()
        && grown[all[m].1 as int].allowed_ips.contains(all[m].0) by {
        if m < ranges.len() {
            assert(all[m] == ranges[m]);
        } else {
            let k = m - ranges.len();
            assert(all[m] == new[k]);
            assert(p.allowed_ips[k] == all[m].0);
        }
    }
}

proof fn lemma_netmap_claims(entries: Seq<NetmapPeer>, n: nat)
    requires
        n <= entries.len() <= usize::MAX,
    ensures
        netmap_roster(entries, n).peers.len() <= n,
        is_the_claims_of(netmap_roster(entries, n).pairs, netmap_roster(entries, n).peers),
    decreases n,
{
    if n > 0 {
        lemma_netmap_claims(entries, (n - 1) as nat);
        let before = netmap_roster(entries, (n - 1) as nat);
        if let Ok(p) = netmap_peer(entries[n - 1]) {
            lemma_claims_grow(before.pairs, before.peers, p);
        }
    }
}

proof fn lemma_file_claims(sections: Seq<PeerSection>, n: nat)
    requires
        n <= sections.len() <= usize::MAX,
        file_roster(sections, n) is Ok,
    ensures
        file_roster(sections, n)->Ok_0.peers.len() == n,
        is_the_claims_of(
            file_roster(sections, n)->Ok_0.pairs,
            file_roster(sections, n)->Ok_0.peers,
        ),
    decreases n,
{
    if n > 0 {
        lemma_file_claims(sections, (n - 1) as nat);
        let before = file_roster(sections, (n - 1) as nat)->Ok_0;
        lemma_claims_grow(before.pairs, before.peers, section_peer(sections[n - 1])->Ok_0);
    }
}

/// The routing table of a loaded netmap holds every range of every peer, under
/// that peer, and nothing else.
pub proof fn every_range_of_a_netmap_peer_is_routed(
    local: LocalSettings,
    netmap: &Netmap,
    c: Config,
)
    requires
        call_ensures(Config::from_netmap, (local, netmap), Ok::<Config, ConfigError>(c)),
    ensures
        forall|i: int, k: int|
            0 <= i < c.peers@.len() && 0 <= k < c.peers@[i].allowed_ips@.len()
                ==> c.routes.ranges@.contains(
                (#[trigger] c.peers@[i].allowed_ips@[k], i as usize),
            ),
        forall|m: int|
            0 <= m < c.routes.ranges@.len() ==> (#[trigger] c.routes.ranges@[m]).1 < c.peers@.len()
                && c.peers@[c.routes.ranges@[m].1 as int].allowed_ips@.contains(
                c.routes.ranges@[m].0,
            ),
{
    assert(netmap.peers@.len() == netmap.peers.len());
    let roster = netmap_roster(netmap.peers@, netmap.peers@.len());
    lemma_netmap_claims(netmap.peers@, netmap.peers@.len());
    lemma_claims_of_config(c, roster.peers);
}

/// The routing table of a loaded file holds every range of every peer, under
/// that peer, and nothing else.
pub proof fn every_range_of_a_file_peer_is_routed(
    file: File,
    seed: Result<String, ConfigError>,
    c: Config,
)
    requires
        call_ensures(Config::from_file, (file, seed), Ok::<Config, ConfigError>(c)),
    ensures
        c.peers@.len() == file.peers@.len(),
        forall|i: int, k: int|
            0 <= i < c.peers@.len() && 0 <= k < c.peers@[i].allowed_ips@.len()
                ==> c.routes.ranges@.contains(
                (#[trigger] c.peers@[i].allowed_ips@[k], i as usize),
            ),
        forall|m: int|
            0 <= m < c.routes.ranges@.len() ==> (#[trigger] c.routes.ranges@[m]).1 < c.peers@.len()
                && c.peers@[c.routes.ranges@[m].1 as int].allowed_ips@.contains(
                c.routes.ranges@[m].0,
            ),
{
    assert(file.peers@.len() == file.peers.len());
    lemma_file_claims(file.peers@, file.peers@.len());
    let roster = file_roster(file.peers@, file.peers@.len())->Ok_0;
    assert(peer_facts(c.peers@).len() == c.peers@.len());
    lemma_claims_of_config(c, roster.peers);
}

proof fn lemma_claims_of_config(c: Config, peers: Seq<PeerFacts>)
    requires
        peer_facts(c.peers@) == peers,
        is_the_claims_of(c.routes.ranges@, peers),
    ensures
        forall|i: int, k: int|
            0 <= i < c.peers@.len() && 0 <= k < c.peers@[i].allowed_ips@.len()
                ==> c.routes.ranges@.contains(
                (#[trigger] c.peers@[i].allowed_ips@[k], i as usize),
            ),
        forall|m: int|
            0 <= m < c.routes.ranges@.len() ==> (#[trigger] c.routes.ranges@[m]).1 < c.peers@.len()
                && c.peers@[c.routes.ranges@[m].1 as int].allowed_ips@.contains(
                c.routes.ranges@[m].0,
            ),
{
    assert forall|i: int| 0 <= i < c.peers@.len() implies (#[trigger] peers[i]).allowed_ips
        == c.peers@[i].allowed_ips@ by {
        assert(peers[i] == c.peers@[i]@);
    }
    assert(peers.len() == c.peers@.len());
    assert forall|i: int, k: int|
        0 <= i < c.peers@.len() && 0 <= k < c.peers@[i].allowed_ips@.len() implies
        c.routes.ranges@.contains((#[trigger] c.peers@[i].allowed_ips@[k], i as usize)) by {
        assert(peers[i].allowed_ips[k] == c.peers@[i].allowed_ips@[k]);
    }
}

/// An address that the ranges of one peer hold, and those of no other, routes
/// to that peer, and the peer may send from it. One that no range of any peer
/// holds routes to nobody.
pub proof fn an_address_routes_to_the_peer_that_claims_it(
    local: LocalSettings,
    netmap: &Netmap,
    c: Config,
    ip: IpAddr,
    i: int,
    k: int,
    r: Option<usize>,
    allowed: bool,
)
    requires
        call_ensures(Config::from_netmap, (local, netmap), Ok::<Config, ConfigError>(c)),
        call_ensures(AllowedIps::route, (&c.routes, ip), r),
        call_ensures(AllowedIps::permits, (&c.routes, i as usize, ip), allowed),
        0 <= i < c.peers@.len(),
        0 <= k < c.peers@[i].allowed_ips@.len(),
        lies_in(c.peers@[i].allowed_ips@[k], ip),
        forall|j: int, m: int|
            0 <= j < c.peers@.len() && j != i && 0 <= m < c.peers@[j].allowed_ips@.len()
                ==> !lies_in(#[trigger] c.peers@[j].allowed_ips@[m], ip),
    ensures
        r == Some(i as usize),
        allowed,
{
    every_range_of_a_netmap_peer_is_routed(local, netmap, c);
    let ranges = c.routes.ranges@;
    assert(c.peers@.len() == c.peers.len());
    let at = choose|at: int|
        0 <= at < ranges.len() && ranges[at] == (c.peers@[i].allowed_ips@[k], i as usize);
    the_longest_range_decides(c.routes, ip, r, at, i as usize, allowed);
    let peer = r->0;
    lemma_owner_is_a_claim(c.routes, ip, r);
    let m = choose|m: int|
        0 <= m < ranges.len() && ranges[m].1 == peer && lies_in(#[trigger] ranges[m].0, ip);
    let theirs = c.peers@[peer as int].allowed_ips@;
    assert(theirs.contains(ranges[m].0));
    let q = choose|q: int| 0 <= q < theirs.len() && theirs[q] == ranges[m].0;
    assert(lies_in(c.peers@[peer as int].allowed_ips@[q], ip));
}

/// Every entry of a netmap that can be used becomes the peer that it describes,
/// and every other is skipped with a reason, in the order of the netmap.
pub proof fn every_usable_entry_becomes_a_peer(
    local: LocalSettings,
    netmap: &Netmap,
    c: Config,
    k: int,
    r: Result<Peer, ConfigError>,
    reason: String,
)
    requires
        call_ensures(Config::from_netmap, (local, netmap), Ok::<Config, ConfigError>(c)),
        0 <= k < netmap.peers@.len(),
        call_ensures(Peer::from_netmap, (&netmap.peers@[k],), r),
        r matches Err(e) ==> call_ensures(ConfigError::to_text, (&e,), reason),
    ensures
        c.peers@.len() + c.skipped@.len() == netmap.peers@.len(),
        r matches Ok(p) ==> exists|i: int| 0 <= i < c.peers@.len() && (#[trigger] c.peers@[i])@ == p@,
        r is Err ==> exists|i: int|
            0 <= i < c.skipped@.len() && (#[trigger] c.skipped@[i]).dns_name@
                == netmap.peers@[k].dns_name@ && c.skipped@[i].handle@ == lossy_text(
                netmap.peers@[k].node_id@,
            ) && c.skipped@[i].reason@ == reason@,
{
    let entries = netmap.peers@;
    let roster = netmap_roster(entries, entries.len());
    every_entry_is_accounted_for(entries, entries.len());
    assert(peer_facts(c.peers@).len() == c.peers@.len());
    let facts = |s: SkippedPeer| skip_facts(s);
    assert(c.skipped@.map_values(facts).len() == c.skipped@.len());
    lemma_entry_is_placed(entries, entries.len(), k);
    match netmap_peer(entries[k]) {
        Ok(p) => {
            let i = choose|i: int| 0 <= i < roster.peers.len() && roster.peers[i] == p;
            assert(peer_facts(c.peers@)[i] == c.peers@[i]@);
        },
        Err(f) => {
            let i = choose|i: int|
                0 <= i < roster.skipped.len() && #[trigger] roster.skipped[i] == (
                    lossy_text(entries[k].node_id@),
                    entries[k].dns_name@,
                    f.text(),
                );
            assert(c.skipped@.map_values(facts)[i] == skip_facts(c.skipped@[i]));
        },
    }
}

proof fn lemma_entry_is_placed(entries: Seq<NetmapPeer>, n: nat, k: int)
    requires
        0 <= k < n <= entries.len(),
    ensures
        match netmap_peer(entries[k]) {
            Ok(p) => netmap_roster(entries, n).peers.contains(p),
            Err(f) => netmap_roster(entries, n).skipped.contains(
                (lossy_text(entries[k].node_id@), entries[k].dns_name@, f.text()),
            ),
        },
    decreases n,
{
    let before = netmap_roster(entries, (n - 1) as nat);
    let after = netmap_roster(entries, n);
    if k < n - 1 {
        lemma_entry_is_placed(entries, (n - 1) as nat, k);
        match netmap_peer(entries[k]) {
            Ok(p) => {
                let i = choose|i: int| 0 <= i < before.peers.len() && before.peers[i] == p;
                assert(after.peers[i] == p);
            },
            Err(f) => {
                let t = (lossy_text(entries[k].node_id@), entries[k].dns_name@, f.text());
                let i = choose|i: int| 0 <= i < before.skipped.len() && before.skipped[i] == t;
                assert(after.skipped[i] == t);
            },
        }
    } else {
        match netmap_peer(entries[k]) {
            Ok(p) => {
                assert(after.peers[before.peers.len() as int] == p);
            },
            Err(f) => {
                let t = (lossy_text(entries[k].node_id@), entries[k].dns_name@, f.text());
                assert(after.skipped[before.skipped.len() as int] == t);
            },
        }
    }
}

/// An entry of a netmap can be used exactly when its keys are keys, it has
/// ranges, and each of them is one. The peer then has what the entry says: its
/// keys, its ranges in order, its endpoint, its pre-shared key or thirty-two
/// zeros, and its home relay where that has the width of one.
pub proof fn a_peer_is_what_its_entry_says(entry: &NetmapPeer, r: Result<Peer, ConfigError>)
    requires
        call_ensures(Peer::from_netmap, (entry,), r),
    ensures
        r is Ok <==> {
            &&& encodes_kem_key(entry.kem_public_key@)
            &&& entry.dh_public_key@.len() == 32
            &&& entry.allowed_ips@.len() > 0
            &&& forall|k: int| 0 <= k < entry.allowed_ips@.len() ==> (#[trigger] entry.allowed_ips@[k]) is Ok
        },
        r matches Ok(p) ==> {
            &&& p.node_id@ == entry.node_id@
            &&& p.kem_public_key@ == entry.kem_public_key@
            &&& p.dh_public_key.0@ == entry.dh_public_key@
            &&& p.endpoint == entry.endpoint
            &&& p.disco_key == entry.disco_key
            &&& p.psk_is_fallback == (entry.psk is None)
            &&& entry.psk matches Some(key) ==> p.psk.0@ == key.0@
            &&& entry.psk is None ==> forall|k: int| 0 <= k < 32 ==> #[trigger] p.psk.0@[k] == 0
            &&& entry.dns_name@.len() > 0 ==> p.name@ == entry.dns_name@
            &&& p.home_relay is Some <==> entry.home_relay@.len() == 32
            &&& p.home_relay matches Some(id) ==> id.0@ == entry.home_relay@
            &&& p.allowed_ips@.len() == entry.allowed_ips@.len()
            &&& forall|k: int|
                0 <= k < entry.allowed_ips@.len() ==> #[trigger] p.allowed_ips@[k]
                    == entry.allowed_ips@[k]->Ok_0
        },
{
    lemma_prefixes_in(entry.allowed_ips@);
}

proof fn lemma_prefixes_in(list: Seq<Result<Prefix, String>>)
    ensures
        prefixes_in(list) is Ok <==> forall|k: int| 0 <= k < list.len() ==> (#[trigger] list[k]) is Ok,
        prefixes_in(list) matches Ok(p) ==> p.len() == list.len() && forall|k: int|
            0 <= k < list.len() ==> #[trigger] p[k] == list[k]->Ok_0,
    decreases list.len(),
{
    if list.len() > 0 {
        let init = list.drop_last();
        lemma_prefixes_in(init);
        if prefixes_in(list) is Ok {
            assert forall|k: int| 0 <= k < list.len() implies (#[trigger] list[k]) is Ok by {
                if k < init.len() {
                    assert(init[k] is Ok);
                }
            }
            let p = prefixes_in(list)->Ok_0;
            assert forall|k: int| 0 <= k < list.len() implies #[trigger] p[k] == list[k]->Ok_0 by {
                if k < init.len() {
                    assert(prefixes_in(init)->Ok_0[k] == init[k]->Ok_0);
                }
            }
        }
        if forall|k: int| 0 <= k < list.len() ==> (#[trigger] list[k]) is Ok {
            assert forall|k: int| 0 <= k < init.len() implies (#[trigger] init[k]) is Ok by {
                assert(list[k] is Ok);
            }
            assert(list[list.len() - 1] is Ok);
        }
    }
}

/// A section of a roster becomes a peer exactly when its keys are the
/// hexadecimal text of keys, it has ranges, and each of them is one. The peer
/// then has what the section says.
pub proof fn a_peer_is_what_its_section_says(
    section: &PeerSection,
    r: Result<Peer, ConfigError>,
    kem: Seq<u8>,
    dh: Seq<u8>,
    psk: Seq<u8>,
)
    requires
        call_ensures(Peer::from_section, (section,), r),
        kem.len() == 1184,
        dh.len() == 32,
        psk.len() == 32,
        section.kem_public_key@ == hex_of(kem),
        section.dh_public_key@ == hex_of(dh),
        section.psk matches Some(text) ==> text@ == hex_of(psk),
    ensures
        r is Ok <==> {
            &&& encodes_kem_key(kem)
            &&& section.allowed_ips@.len() > 0
            &&& forall|k: int|
                0 <= k < section.allowed_ips@.len() ==> (#[trigger] section.allowed_ips@[k]) is Ok
        },
        r matches Ok(p) ==> {
            &&& p.name@ == section.name@
            &&& p.kem_public_key@ == kem
            &&& p.dh_public_key.0@ == dh
            &&& p.endpoint == section.endpoint
            &&& p.psk_is_fallback == (section.psk is None)
            &&& section.psk is Some ==> p.psk.0@ == psk
            &&& section.psk is None ==> forall|k: int| 0 <= k < 32 ==> #[trigger] p.psk.0@[k] == 0
            &&& p.allowed_ips@.len() == section.allowed_ips@.len()
            &&& forall|k: int|
                0 <= k < section.allowed_ips@.len() ==> #[trigger] p.allowed_ips@[k]
                    == section.allowed_ips@[k]->Ok_0
        },
{
    lemma_prefixes_in(section.allowed_ips@);
    hex_round_trips(kem, "kem_public_key"@);
    hex_round_trips(dh, "dh_public_key"@);
    hex_round_trips(psk, "psk"@);
}

/// The node ids of the peers, by position.
pub open spec fn ids_of(peers: Seq<Peer>) -> Seq<Seq<u8>> {
    peers.map_values(|p: Peer| p.node_id@)
}

/// The filters of a loaded netmap are the netmap's: a rule is for the peer of
/// the roster whose node id it has among its names, or for all by a star, on
/// the ports that it lists. The SSH gate applies where the netmap has one.
pub proof fn a_rule_is_for_the_peers_that_it_names(
    local: LocalSettings,
    netmap: &Netmap,
    c: Config,
    peer: usize,
    packet: &Packet,
    own: &Vec<Prefix>,
    inward: Verdict,
    outward: Verdict,
    gate: Verdict,
)
    requires
        call_ensures(Config::from_netmap, (local, netmap), Ok::<Config, ConfigError>(c)),
        call_ensures(PacketFilter::ingress, (&c.filter, peer, packet), inward),
        call_ensures(PacketFilter::egress, (&c.filter, peer, packet, own), outward),
        call_ensures(SshFilter::admits, (&c.ssh, peer), gate),
    ensures
        inward is Permit <==> packet.ports is Some && exists|i: int|
            0 <= i < netmap.packet_filter@.len() && means(
                (#[trigger] netmap.packet_filter@[i]).srcs@,
                ids_of(c.peers@),
                peer,
            ) && lists_port(netmap.packet_filter@[i].ports@, packet.ports->0.destination),
        outward is Permit <==> packet.ports is Some && exists|i: int|
            0 <= i < netmap.egress_filter@.len() && is_for(
                #[trigger] netmap.egress_filter@[i],
                ids_of(c.peers@),
                peer,
                packet.destination,
                own@,
            ) && lists_port(netmap.egress_filter@[i].ports@, packet.ports->0.destination),
        gate is Permit <==> !netmap.ssh_filter_present || exists|i: int|
            0 <= i < netmap.ssh_filter@.len() && means(
                (#[trigger] netmap.ssh_filter@[i]).srcs@,
                ids_of(c.peers@),
                peer,
            ) && lists_port(netmap.ssh_filter@[i].ports@, 22),
{
    let entries = netmap.peers@;
    let roster = netmap_roster(entries, entries.len());
    every_entry_is_accounted_for(entries, entries.len());
    assert(peer_facts(c.peers@).len() == c.peers@.len());
    assert(c.peers@.len() == c.peers.len());
    assert forall|i: int| 0 <= i < c.peers@.len() implies ids_of(c.peers@)[i]
        == #[trigger] roster.handles[i] by {
        assert(peer_facts(c.peers@)[i] == c.peers@[i]@);
        assert(roster.peers[i].node_id == roster.handles[i]);
    }
    assert(ids_of(c.peers@) =~= roster.handles);
    let ids = ids_of(c.peers@);
    lemma_rules(netmap.ssh_filter@, ids, peer, 22, None);
    if let Some(ports) = packet.ports {
        lemma_rules(netmap.packet_filter@, ids, peer, ports.destination, packet.destination);
        lemma_egresses(
            netmap.egress_filter@,
            ids,
            peer,
            ports.destination,
            packet.destination,
            own@,
        );
    }
}

/// What a configuration takes over unchanged: from the netmap the epoch and the
/// node's handle, from the node itself where it listens, its interface and its
/// keys. Its addresses are those of the netmap, in order, and there is one.
pub proof fn a_configuration_takes_over_what_it_is_given(
    local: LocalSettings,
    netmap: &Netmap,
    c: Config,
)
    requires
        call_ensures(Config::from_netmap, (local, netmap), Ok::<Config, ConfigError>(c)),
    ensures
        c.psk_epoch == netmap.psk_epoch,
        c.node_id@ == netmap.node_id@,
        c.keys == local.keys,
        c.listen == local.listen,
        c.interface == local.interface,
        c.port_mapping == local.port_mapping,
        c.network_mode == local.network_mode,
        c.userspace_socks5_listen == local.userspace_socks5_listen,
        c.userspace_publish == local.userspace_publish,
        c.nat64 == local.nat64,
        c.relay_ca_file == local.relay_ca_file,
        c.addresses@.len() == netmap.addresses@.len() > 0,
        forall|i: int|
            0 <= i < c.addresses@.len() ==> netmap.addresses@[i] == Ok::<InterfaceAddress, String>(
                #[trigger] c.addresses@[i],
            ),
        c.relays@.len() == netmap.relays@.len(),
        forall|i: int|
            0 <= i < c.relays@.len() ==> (#[trigger] c.relays@[i]).relay_id
                == netmap.relays@[i].relay_id && c.relays@[i].tls_name@
                == netmap.relays@[i].tls_name@ && c.relays@[i].verify_key@
                == netmap.relays@[i].verify_key@,
{
    lemma_interfaces_in(netmap.addresses@);
}

/// A relay is dialled at its address as this node can reach it.
pub proof fn a_relay_is_dialled_behind_the_prefix(
    local: LocalSettings,
    netmap: &Netmap,
    c: Config,
    i: int,
    address: &str,
    r: String,
)
    requires
        call_ensures(Config::from_netmap, (local, netmap), Ok::<Config, ConfigError>(c)),
        0 <= i < netmap.relays@.len(),
        address@ == netmap.relays@[i].address@,
        call_ensures(rewrite_authority, (local.nat64, address), r),
    ensures
        c.relays@[i].address@ == r@,
{
    assert(c.relays@[i].relay_id == netmap.relays@[i].relay_id);
}

proof fn lemma_interfaces_in(list: Seq<Result<InterfaceAddress, String>>)
    ensures
        interfaces_in(list) is Ok <==> forall|k: int|
            0 <= k < list.len() ==> (#[trigger] list[k]) is Ok,
        interfaces_in(list) matches Ok(p) ==> p.len() == list.len() && forall|k: int|
            0 <= k < list.len() ==> list[k] == Ok::<InterfaceAddress, String>(#[trigger] p[k]),
    decreases list.len(),
{
    if list.len() > 0 {
        let init = list.drop_last();
        lemma_interfaces_in(init);
        if interfaces_in(list) is Ok {
            assert forall|k: int| 0 <= k < list.len() implies (#[trigger] list[k]) is Ok by {
                if k < init.len() {
                    assert(init[k] is Ok);
                }
            }
            let p = interfaces_in(list)->Ok_0;
            assert forall|k: int| 0 <= k < list.len() implies list[k] == Ok::<
                InterfaceAddress,
                String,
            >(#[trigger] p[k]) by {
                if k < init.len() {
                    let q = interfaces_in(init)->Ok_0;
                    assert(init[k] == Ok::<InterfaceAddress, String>(q[k]));
                }
            }
        }
        if forall|k: int| 0 <= k < list.len() ==> (#[trigger] list[k]) is Ok {
            assert forall|k: int| 0 <= k < init.len() implies (#[trigger] init[k]) is Ok by {
                assert(list[k] is Ok);
            }
            assert(list[list.len() - 1] is Ok);
        }
    }
}

/// A file's roster gives its peers different names, takes the node's own
/// settings as they stand, and enforces no policy.
pub proof fn a_file_is_taken_as_it_stands(
    file: File,
    seed: Result<String, ConfigError>,
    c: Config,
)
    requires
        call_ensures(Config::from_file, (file, seed), Ok::<Config, ConfigError>(c)),
    ensures
        file.control is None,
        c.psk_epoch == file.node.psk_epoch,
        c.listen == file.node.listen,
        c.interface == file.node.interface,
        c.port_mapping == file.node.port_mapping,
        c.network_mode == file.node.network_mode,
        c.addresses@.len() == file.node.addresses@.len() > 0,
        forall|i: int|
            0 <= i < c.addresses@.len() ==> file.node.addresses@[i] == Ok::<
                InterfaceAddress,
                String,
            >(#[trigger] c.addresses@[i]),
        c.filter.ingress is None && c.filter.egress is None && c.ssh.0 is None,
        c.relays@.len() == 0,
        forall|i: int, j: int|
            0 <= i < j < file.peers@.len() ==> (#[trigger] file.peers@[i]).name@ != (
            #[trigger] file.peers@[j]).name@,
        forall|i: int|
            0 <= i < c.peers@.len() ==> (#[trigger] c.peers@[i]).name@ == file.peers@[i].name@,
{
    lemma_interfaces_in(file.node.addresses@);
    lemma_names_differ(file.peers@, file.peers@.len());
    let roster = file_roster(file.peers@, file.peers@.len())->Ok_0;
    assert(peer_facts(c.peers@).len() == c.peers@.len());
    assert forall|i: int| 0 <= i < c.peers@.len() implies (#[trigger] c.peers@[i]).name@
        == file.peers@[i].name@ by {
        assert(peer_facts(c.peers@)[i] == c.peers@[i]@);
        assert(roster.peers[i].name == file.peers@[i].name@);
    }
}

proof fn lemma_names_differ(sections: Seq<PeerSection>, n: nat)
    requires
        n <= sections.len(),
        file_roster(sections, n) is Ok,
    ensures
        forall|i: int, j: int|
            0 <= i < j < n ==> (#[trigger] sections[i]).name@ != (#[trigger] sections[j]).name@,
        file_roster(sections, n)->Ok_0.peers.len() == n,
        forall|i: int|
            0 <= i < n ==> (#[trigger] file_roster(sections, n)->Ok_0.peers[i]).name
                == sections[i].name@,
    decreases n,
{
    if n > 0 {
        lemma_names_differ(sections, (n - 1) as nat);
        let before = file_roster(sections, (n - 1) as nat)->Ok_0.peers;
        let after = file_roster(sections, n)->Ok_0.peers;
        assert(!named_before(sections, n - 1));
        assert forall|i: int| 0 <= i < n implies (#[trigger] after[i]).name == sections[i].name@ by {
            if i < n - 1 {
                assert(before[i].name == sections[i].name@);
            }
        }
    }
}

/// A private key is 96 bytes in hexadecimal: 64 for the key encapsulation, then
/// 32 for the Diffie-Hellman key.
pub proof fn a_private_key_has_two_parts(
    text: String,
    seed: Seq<u8>,
    r: Result<KeySeeds, ConfigError>,
)
    requires
        text@ == hex_of(seed),
        call_ensures(load_keys, (Ok::<String, ConfigError>(text),), r),
    ensures
        seed.len() == 96 <==> r is Ok,
        r matches Ok(keys) ==> keys.kem.0@ + keys.dh.0@ == seed && keys.kem.0@.len() == 64
            && keys.dh.0@.len() == 32,
{
    hex_round_trips(seed, "private_key_file"@);
    lemma_hex_of(seed);
    lemma_hex_ascii(seed);
    if let Ok(keys) = r {
        assert(keys.kem.0@ + keys.dh.0@ =~= seed);
    }
}

proof fn lemma_hex_ascii(bytes: Seq<u8>)
    ensures
        trimmed(hex_of(bytes)) == hex_of(bytes),
        vstd::utf8::encode_utf8(hex_of(bytes)).len() == 2 * bytes.len(),
{
    let text = hex_of(bytes);
    lemma_hex_of(bytes);
    if text.len() > 0 {
        assert(is_hex_char(text[0]));
        assert(is_hex_char(text[text.len() - 1]));
    }
    assert(vstd::utf8::is_ascii_chars(text)) by {
        assert forall|i: int| 0 <= i < text.len() implies '\0' <= #[trigger] text[i] <= '\u{7f}' by {
            assert(is_hex_char(text[i]));
        }
    }
    vstd::utf8::is_ascii_chars_encode_utf8(text);
}

/// Hexadecimal text has two digits for each byte, the high one first.
pub proof fn a_byte_is_two_digits(bytes: &[u8], s: String, i: int)
    requires
        call_ensures(encode_hex, (bytes,), s),
        0 <= i < bytes@.len(),
    ensures
        s@.len() == 2 * bytes@.len(),
        0 <= digit_worth(s@[2 * i]) < 16,
        0 <= digit_worth(s@[2 * i + 1]) < 16,
        bytes@[i] == 16 * digit_worth(s@[2 * i]) + digit_worth(s@[2 * i + 1]),
{
    lemma_hex_digits(bytes@, i);
    lemma_hex_of(bytes@);
}

proof fn lemma_hex_digits(bytes: Seq<u8>, i: int)
    requires
        0 <= i < bytes.len(),
    ensures
        hex_of(bytes).len() == 2 * bytes.len(),
        0 <= digit_worth(hex_of(bytes)[2 * i]) < 16,
        0 <= digit_worth(hex_of(bytes)[2 * i + 1]) < 16,
        bytes[i] == 16 * digit_worth(hex_of(bytes)[2 * i]) + digit_worth(
            hex_of(bytes)[2 * i + 1],
        ),
    decreases bytes.len(),
{
    lemma_hex_of(bytes);
    let init = bytes.drop_last();
    lemma_hex_of(init);
    if i < init.len() {
        lemma_hex_digits(init, i);
        assert(hex_of(bytes)[2 * i] == hex_of(init)[2 * i]);
        assert(hex_of(bytes)[2 * i + 1] == hex_of(init)[2 * i + 1]);
    }
}

/// A file that holds secrets is taken exactly when none of the six permissions
/// of group and others is given.
pub proof fn a_secret_file_is_its_owners(path: &str, mode: u32, r: Result<(), ConfigError>)
    requires
        call_ensures(check_permissions, (path, mode), r),
    ensures
        r is Ok <==> mode & 0o077 == 0,
{
    assert(mode % 0o100 == 0 <==> mode & 0o077 == 0) by (bit_vector);
}

/// The userspace settings are sound exactly when they are absent in TUN mode,
/// and when in userspace mode there is some way in or out and every published
/// port is a port and is published once.
pub proof fn userspace_settings_belong_to_userspace(
    mode: NetworkMode,
    socks5: Option<SocketAddr>,
    publish: &Vec<PublishSection>,
    r: Result<(), ConfigError>,
)
    requires
        call_ensures(validate_userspace, (mode, socks5, publish), r),
    ensures
        mode is Tun ==> (r is Ok <==> socks5 is None && publish@.len() == 0),
        mode is Userspace ==> (r is Ok <==> {
            &&& socks5 is Some || publish@.len() > 0
            &&& forall|i: int| 0 <= i < publish@.len() ==> (#[trigger] publish@[i]).port != 0
            &&& forall|i: int, j: int|
                0 <= i < j < publish@.len() ==> (#[trigger] publish@[i]).port != (
                #[trigger] publish@[j]).port
        }),
{
    lemma_published(publish@, publish@.len());
}

proof fn lemma_published(publish: Seq<PublishSection>, n: nat)
    requires
        n <= publish.len(),
    ensures
        publish_fault(publish, n) is None <==> {
            &&& forall|i: int| 0 <= i < n ==> (#[trigger] publish[i]).port != 0
            &&& forall|i: int, j: int|
                0 <= i < j < n ==> (#[trigger] publish[i]).port != (#[trigger] publish[j]).port
        },
    decreases n,
{
    if n > 0 {
        lemma_published(publish, (n - 1) as nat);
        let last = publish[n - 1];
        if publish_fault(publish, n) is None {
            assert(!(exists|i: int| 0 <= i < n - 1 && (#[trigger] publish[i]).port == last.port));
        }
    }
}

/// A roster carries secrets exactly when one of its peers has a pre-shared key.
pub proof fn a_roster_with_a_key_is_secret(file: &File, i: int, r: bool)
    requires
        call_ensures(Config::has_psk, (file,), r),
        0 <= i < file.peers@.len(),
        file.peers@[i].psk is Some,
    ensures
        r,
{
}

/// A text of hexadecimal digits has no white space to take off, and as many bytes
/// as digits.
pub proof fn lemma_hex_is_plain(bytes: Seq<u8>)
    ensures
        trimmed(hex_of(bytes)) == hex_of(bytes),
        vstd::utf8::encode_utf8(hex_of(bytes)).len() == 2 * bytes.len(),
{
    let text = hex_of(bytes);
    lemma_hex_of(bytes);
    if text.len() > 0 {
        assert(is_hex_char(text[0]));
        assert(is_hex_char(text[text.len() - 1]));
    }
    assert(vstd::utf8::is_ascii_chars(text)) by {
        assert forall|i: int| 0 <= i < text.len() implies '\0' <= #[trigger] text[i] <= '\u{7f}' by {
            assert(is_hex_char(text[i]));
        }
    }
    vstd::utf8::is_ascii_chars_encode_utf8(text);
}

/// What a byte is worth as a hexadecimal digit, in either case.
pub open spec fn hex_worth(b: u8) -> int {
    if 0x30 <= b <= 0x39 {
        b - 0x30
    } else if 0x61 <= b <= 0x66 {
        b - 0x61 + 10
    } else if 0x41 <= b <= 0x46 {
        b - 0x41 + 10
    } else {
        -1
    }
}

proof fn lemma_hex_bytes(s: Seq<u8>)
    requires
        s.len() % 2 == 0,
    ensures
        hex_bytes(s) is Some <==> forall|i: int| 0 <= i < s.len() ==> hex_worth(#[trigger] s[i]) >= 0,
        hex_bytes(s) matches Some(v) ==> v.len() * 2 == s.len() && forall|i: int|
            0 <= i < v.len() ==> #[trigger] v[i] == 16 * hex_worth(s[2 * i]) + hex_worth(
                s[2 * i + 1],
            ),
    decreases s.len(),
{
    if s.len() >= 2 {
        let init = s.take(s.len() - 2);
        lemma_hex_bytes(init);
        let n = s.len();
        assert forall|i: int| 0 <= i < n - 2 implies #[trigger] s[i] == init[i] by {}
        if hex_bytes(s) is Some {
            let v = hex_bytes(s)->0;
            let w = hex_bytes(init)->0;
            assert forall|i: int| 0 <= i < s.len() implies hex_worth(#[trigger] s[i]) >= 0 by {
                if i < n - 2 {
                    assert(hex_worth(init[i]) >= 0);
                }
            }
            assert forall|i: int| 0 <= i < v.len() implies #[trigger] v[i] == 16 * hex_worth(
                s[2 * i],
            ) + hex_worth(s[2 * i + 1]) by {
                if i < w.len() {
                    assert(v[i] == w[i]);
                    assert(init[2 * i] == s[2 * i] && init[2 * i + 1] == s[2 * i + 1]);
                }
            }
        }
        if forall|i: int| 0 <= i < s.len() ==> hex_worth(#[trigger] s[i]) >= 0 {
            assert forall|i: int| 0 <= i < init.len() implies hex_worth(#[trigger] init[i]) >= 0 by {
                assert(s[i] == init[i]);
            }
            assert(hex_worth(s[n - 2]) >= 0 && hex_worth(s[n - 1]) >= 0);
        }
    }
}

/// A hexadecimal field is read if, without the white space around it, it has two
/// digits for each byte that is expected, in either case; each two spell a byte.
pub proof fn two_digits_spell_a_byte(
    s: &str,
    text: String,
    n: usize,
    field: &str,
    r: Result<Vec<u8>, ConfigError>,
)
    requires
        call_ensures(trim, (s,), text),
        call_ensures(decode_hex, (s, n, field), r),
    ensures
        ({
            let bytes = vstd::utf8::encode_utf8(text@);
            &&& r is Ok <==> bytes.len() == 2 * n && forall|i: int|
                0 <= i < bytes.len() ==> hex_worth(#[trigger] bytes[i]) >= 0
            &&& r matches Ok(v) ==> v@.len() == n && forall|i: int|
                0 <= i < n ==> #[trigger] v@[i] == 16 * hex_worth(bytes[2 * i]) + hex_worth(
                    bytes[2 * i + 1],
                )
        }),
{
    let bytes = vstd::utf8::encode_utf8(text@);
    if bytes.len() == 2 * n {
        lemma_hex_bytes(bytes);
    }
}

/// A text of hexadecimal digits has two for each byte.
pub proof fn lemma_hex_length(bytes: Seq<u8>)
    ensures
        hex_of(bytes).len() == 2 * bytes.len(),
{
    lemma_hex_of(bytes);
}

/// A peer is found by its name, the first of that name.
pub proof fn a_peer_is_found_by_its_name(c: Config, name: &str, r: Option<usize>, i: int)
    requires
        call_ensures(Config::peer_index, (&c, name), r),
        0 <= i < c.peers@.len(),
    ensures
        r is None ==> c.peers@[i].name@ != name@,
        r matches Some(k) ==> k < c.peers@.len() && c.peers@[k as int].name@ == name@ && (i < k
            ==> c.peers@[i].name@ != name@),
{
}

/// A peer that was left out is reported by its name, or its handle without one,
/// and with the reason.
pub proof fn a_skipped_peer_is_reported(p: SkippedPeer, s: String)
    requires
        call_ensures(SkippedPeer::to_text, (&p,), s),
    ensures
        p.dns_name@.len() > 0 ==> s@ == p.dns_name@ + ": "@ + p.reason@,
        p.dns_name@.len() == 0 ==> s@ == p.handle@ + ": "@ + p.reason@,
{
}

/// An error says what it is about: the file and what came of it, the field, the
/// peer, or the two peers that claim one range.
pub proof fn an_error_says_what_it_is_about(
    path: String,
    m: String,
    mode: u32,
    rights: String,
    c: Conflict,
    range: String,
    first: String,
    second: String,
    read: String,
    parse: String,
    permissions: String,
    hex: String,
    key: String,
    prefix: String,
    conflict: String,
    twice: String,
    unusable: String,
)
    requires
        call_ensures(octal, (mode as u64,), rights),
        call_ensures(Prefix::to_text, (&c.prefix,), range),
        call_ensures(decimal, (c.first as u64,), first),
        call_ensures(decimal, (c.second as u64,), second),
        call_ensures(ConfigError::to_text, (&ConfigError::Read { path, source: m },), read),
        call_ensures(ConfigError::to_text, (&ConfigError::Parse { path, message: m },), parse),
        call_ensures(ConfigError::to_text, (&ConfigError::Permissions { path, mode },), permissions),
        call_ensures(ConfigError::to_text, (&ConfigError::Hex { field: path, reason: m },), hex),
        call_ensures(ConfigError::to_text, (&ConfigError::InvalidKey { peer: path, field: m },), key),
        call_ensures(ConfigError::to_text, (&ConfigError::Prefix { peer: path, source: m },), prefix),
        call_ensures(ConfigError::to_text, (&ConfigError::Conflict(c),), conflict),
        call_ensures(ConfigError::to_text, (&ConfigError::DuplicatePeerName(m),), twice),
        call_ensures(ConfigError::to_text, (&ConfigError::Unusable(m),), unusable),
    ensures
        read@ == "reading "@ + path@ + ": "@ + m@,
        parse@ == "parsing "@ + path@ + ": "@ + m@,
        permissions@ == path@ + " is mode "@ + padded(rights@, 4)
            + "; it holds key material and must not be readable by group or other (chmod 600)"@,
        hex@ == "field "@ + path@ + ": "@ + m@,
        key@ == "peer "@ + quoted_text(path@) + ": "@ + m@ + " is not a valid key encoding"@,
        prefix@ == "peer "@ + quoted_text(path@) + ": "@ + m@,
        conflict@ == range@ + " is claimed by peer "@ + first@ + " and by peer "@ + second@,
        twice@ == "two peers are both named "@ + quoted_text(m@),
        unusable@ == m@,
{
}

/// A peer of the netmap goes by its name there; without one it goes by the first
/// eight characters of its handle. This is also how it is named where it cannot be
/// used.
pub proof fn a_netmap_peer_goes_by_its_name(
    entry: &NetmapPeer,
    r: Result<Peer, ConfigError>,
    id: Seq<char>,
)
    requires
        call_ensures(Peer::from_netmap, (entry,), r),
        id == lossy_text(entry.node_id@),
    ensures
        ({
            let name = if entry.dns_name@.len() > 0 {
                entry.dns_name@
            } else if id.len() <= 8 {
                "node-"@ + id
            } else {
                "node-"@ + id.take(8)
            };
            &&& r matches Ok(p) ==> p.name@ == name
            &&& r matches Err(ConfigError::InvalidKey { peer, field }) ==> peer@ == name
            &&& r matches Err(ConfigError::Prefix { peer, source }) ==> peer@ == name
        }),
{
    if let Ok(p) = r {
        assert(p@.name == p.name@);
    }
    if let Err(e) = r {
        match e {
            ConfigError::InvalidKey { peer, field } => {
                assert(e@ == (Fault::InvalidKey { peer: peer@, field: field@ }));
            },
            ConfigError::Prefix { peer, source } => {
                assert(e@ == (Fault::Prefix { peer: peer@, source: source@ }));
            },
            _ => {},
        }
    }
}

} // verus!

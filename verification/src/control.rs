//! Talking to the coordination server: the node's identity, the checks on what
//! the server says, and where a configuration comes from.
//!
//! The identity authenticates the control channel and nothing else; the keys
//! that peers handshake with live in a file of their own, so that leaking the
//! one does not leak the others. The connection, the sealed cache, and the
//! files themselves are the caller's.

use crate::bytes::{same_bytes, to_vec, Bytes};
use crate::config::{
    decode_hex, decoded, encode_hex, file_facts, hex_of, key_facts, load_keys, netmap_facts,
    seed_halves, valid_interfaces, valid_prefixes, valid_sections, Config, ConfigError,
    ControlSection, File, KeySeeds, LocalSettings, Netmap,
};
use crate::crypto::{
    mldsa65_accepts, mldsa65_public, mldsa65_public_key, mldsa65_sign, mldsa65_signature,
    mldsa65_verify, mlkem768_public, sha256, sha256_of, x25519_public, SIGNATURE_LEN,
    VERIFY_KEY_LEN,
};
use crate::filter::valid_cidrs;
use crate::nat64::Nat64Prefix;
use crate::random::random_seed;
use crate::text::{
    byte_count, decimal, decimal_text, lossy, lossy_text, octal, octal_text, pad, padded, quoted,
    quoted_text, trim, trimmed,
};
use vstd::prelude::*;
use vstd::utf8::encode_utf8;

verus! {

/// Bytes of an identity seed.
pub const IDENTITY_SEED_LEN: usize = 32;

/// Request kinds. These are on the wire and may not drift.
pub const KIND_LOGIN: u8 = 1;

pub const KIND_NETMAP: u8 = 2;

/// How often the netmap is fetched again, in seconds.
pub const REFRESH_SECS: u64 = 60;

/// Bytes of an ML-KEM-768 encapsulation key.
pub const KEM_PIN_LEN: usize = 1184;

/// Anything that stopped the node from reaching the server.
#[derive(Debug)]
pub enum Error {
    /// A file could not be read or written.
    Io { path: String, source: String },
    /// A key file was not the right shape.
    Key(String),
    /// A file that holds secrets is readable beyond its owner.
    Permissions { path: String, mode: u32 },
    /// The server refused, or could not be reached.
    Server(String),
    /// The server's answer did not make sense.
    Protocol(String),
    /// The netmap could not be applied.
    Netmap(String),
    /// The netmap could not configure a datapath.
    Config(ConfigError),
    /// The cache could not be read.
    Cache(String),
}

/// Anything that stopped the node, as a value.
pub enum Fault {
    Io { path: Seq<char>, source: Seq<char> },
    Key(Seq<char>),
    Permissions { path: Seq<char>, mode: u32 },
    Server(Seq<char>),
    Protocol(Seq<char>),
    Netmap(Seq<char>),
    Config(crate::config::Fault),
    Cache(Seq<char>),
}

impl View for Error {
    type V = Fault;

    open spec fn view(&self) -> Fault {
        match self {
            Error::Io { path, source } => Fault::Io { path: path@, source: source@ },
            Error::Key(m) => Fault::Key(m@),
            Error::Permissions { path, mode } => Fault::Permissions { path: path@, mode: *mode },
            Error::Server(m) => Fault::Server(m@),
            Error::Protocol(m) => Fault::Protocol(m@),
            Error::Netmap(m) => Fault::Netmap(m@),
            Error::Config(e) => Fault::Config(e@),
            Error::Cache(m) => Fault::Cache(m@),
        }
    }
}

impl Fault {
    /// The message for the error.
    pub open spec fn text(self) -> Seq<char> {
        match self {
            Fault::Io { path, source } => path + ": "@ + source,
            Fault::Key(m) => "key: "@ + m,
            Fault::Permissions { path, mode } => path + " is mode "@ + padded(
                octal_text(mode as nat),
                4,
            )
                + "; it holds key material and must not be readable by group or other (chmod 600)"@,
            Fault::Server(m) => "server: "@ + m,
            Fault::Protocol(m) => "protocol: "@ + m,
            Fault::Netmap(m) => "netmap: "@ + m,
            Fault::Config(e) => "configuration: "@ + e.text(),
            Fault::Cache(m) => "cache: "@ + m,
        }
    }
}

fn joined(a: &str, b: &str) -> (r: String)
    ensures
        r@ == a@ + b@,
{
    let mut r = String::from_str(a);
    r.append(b);
    r
}

impl Error {
    /// The message for the error.
    pub fn to_text(&self) -> (s: String)
        ensures
            s@ == self@.text(),
    {
        match self {
            Error::Io { path, source } => {
                let mut s = joined(path.as_str(), ": ");
                s.append(source.as_str());
                s
            },
            Error::Key(m) => joined("key: ", m.as_str()),
            Error::Permissions { path, mode } => {
                let digits = octal(*mode as u64);
                let digits = pad(digits.as_str(), 4);
                let mut s = joined(path.as_str(), " is mode ");
                s.append(digits.as_str());
                s.append(
                    "; it holds key material and must not be readable by group or other (chmod 600)",
                );
                s
            },
            Error::Server(m) => joined("server: ", m.as_str()),
            Error::Protocol(m) => joined("protocol: ", m.as_str()),
            Error::Netmap(m) => joined("netmap: ", m.as_str()),
            Error::Config(e) => {
                let text = e.to_text();
                joined("configuration: ", text.as_str())
            },
            Error::Cache(m) => joined("cache: ", m.as_str()),
        }
    }
}

/// Refuses a file that holds secrets and that anyone but its owner can read.
pub fn check_permissions(path: &str, mode: u32) -> (r: Result<(), Error>)
    ensures
        match r {
            Ok(()) => mode % 0o100 == 0,
            Err(e) => mode % 0o100 != 0 && e@ == (Fault::Permissions {
                path: path@,
                mode: mode % 0o1000,
            }),
        },
{
    if mode % 0o100 != 0 {
        Err(Error::Permissions { path: String::from_str(path), mode: mode % 0o1000 })
    } else {
        Ok(())
    }
}

/// The context of a signature on the control channel.
pub open spec fn control_context() -> Seq<u8> {
    encode_utf8("karst-control-v1"@)
}

/// The context of a signature for a relay.
pub open spec fn relay_context() -> Seq<u8> {
    encode_utf8("ponor-v1"@)
}

/// The label that sets the cache key apart from every other use of the seed.
pub open spec fn cache_label() -> Seq<u8> {
    encode_utf8("karst-netmap-cache-key-v1"@)
}

/// The node's signing identity.
pub struct Identity {
    pub seed: Bytes<32>,
    pub public: Vec<u8>,
    /// Secret material for the sealed cache. It is derived from the seed: a key
    /// made from a public key protects nothing.
    pub cache_key: Bytes<32>,
}

/// A key file, as the caller found it.
pub enum KeyFile {
    Present { text: String, mode: u32 },
    Missing,
    Unreadable(String),
}

/// What a key file holds.
pub enum Held {
    /// An identity with this seed.
    Seed(Seq<u8>),
    /// None yet: one is to be created.
    Nothing,
}

/// The seed in a key file, or what is wrong with the file.
pub open spec fn held(path: Seq<char>, file: KeyFile) -> Result<Held, Fault> {
    match file {
        KeyFile::Unreadable(e) => Err(Fault::Io { path, source: e@ }),
        KeyFile::Missing => Ok(Held::Nothing),
        KeyFile::Present { text, mode } => if mode % 0o100 != 0 {
            Err(Fault::Permissions { path, mode: mode % 0o1000 })
        } else {
            match decoded(text@, IDENTITY_SEED_LEN as nat, "key"@) {
                Ok(seed) => Ok(Held::Seed(seed)),
                Err(e) => Err(Fault::Key(e.text())),
            }
        },
    }
}

fn seed_of(v: &Vec<u8>) -> (r: Bytes<32>)
    requires
        v@.len() == 32,
    ensures
        r.0@ == v@,
{
    let mut bytes = [0u8; 32];
    let mut i: usize = 0;
    while i < 32
        invariant
            i <= 32 == v@.len(),
            forall|j: int| 0 <= j < i ==> bytes@[j] == v@[j],
        decreases 32 - i,
    {
        bytes[i] = v[i];
        i = i + 1;
    }
    assert(bytes@ =~= v@);
    Bytes(bytes)
}

impl Identity {
    /// The public key and the cache key are those of the seed.
    pub open spec fn wf(self) -> bool {
        &&& self.public@ == mldsa65_public(self.seed.0@)
        &&& self.public@.len() == VERIFY_KEY_LEN
        &&& self.cache_key.0@ == sha256_of(cache_label() + self.seed.0@)
    }

    /// Derives an identity from a seed.
    pub fn from_seed(seed: &Bytes<32>) -> (id: Identity)
        ensures
            id.wf(),
            id.seed == *seed,
    {
        let public = mldsa65_public_key(seed);
        let mut data: Vec<u8> = Vec::new();
        data.extend_from_slice("karst-netmap-cache-key-v1".as_bytes());
        data.extend_from_slice(&seed.0);
        assert(data@ =~= cache_label() + seed.0@);
        let cache_key = sha256(data.as_slice());
        Identity { seed: *seed, public, cache_key }
    }

    /// An identity made from a fresh seed, and the text of its key file.
    pub fn created(seed: &Bytes<32>) -> (r: (Identity, String))
        ensures
            r.0.wf(),
            r.0.seed == *seed,
            r.1@ == hex_of(seed.0@),
    {
        (Identity::from_seed(seed), encode_hex(&seed.0))
    }

    /// Reads an identity from its key file, or creates one on first run. With a
    /// new identity comes the text that has to be written before it is used.
    pub fn load_or_create(path: &str, file: KeyFile) -> (r: Result<
        (Identity, Option<String>),
        Error,
    >)
        ensures
            match held(path@, file) {
                Err(f) => r is Err && r->Err_0@ == f,
                Ok(Held::Seed(seed)) => {
                    &&& r is Ok
                    &&& (r->Ok_0).0.wf()
                    &&& (r->Ok_0).0.seed.0@ == seed
                    &&& (r->Ok_0).1 is None
                },
                Ok(Held::Nothing) => match r {
                    Ok((identity, text)) => {
                        &&& identity.wf()
                        &&& text is Some
                        &&& text->0@ == hex_of(identity.seed.0@)
                    },
                    Err(e) => e@ == Fault::Key("the OS entropy source failed"@),
                },
            },
    {
        match file {
            KeyFile::Unreadable(e) => Err(Error::Io { path: String::from_str(path), source: e }),
            KeyFile::Missing => match random_seed() {
                Some(seed) => {
                    let (identity, text) = Identity::created(&seed);
                    Ok((identity, Some(text)))
                },
                None => Err(Error::Key(String::from_str("the OS entropy source failed"))),
            },
            KeyFile::Present { text, mode } => {
                match check_permissions(path, mode) {
                    Ok(()) => {},
                    Err(e) => {
                        return Err(e);
                    },
                }
                match decode_hex(text.as_str(), IDENTITY_SEED_LEN, "key") {
                    Ok(bytes) => {
                        let seed = seed_of(&bytes);
                        Ok((Identity::from_seed(&seed), None))
                    },
                    Err(e) => Err(Error::Key(e.to_text())),
                }
            },
        }
    }

    /// Signs a message of the control channel. The verifier of that channel
    /// accepts the signature under the identity's own key.
    pub fn sign(&self, message: &[u8]) -> (r: Result<Vec<u8>, String>)
        ensures
            match r {
                Ok(s) => {
                    &&& mldsa65_signature(self.seed.0@, message@, control_context()) == Some(s@)
                    &&& self.wf() ==> authentic(self.public@, message@, control_context(), s@)
                },
                Err(e) => {
                    &&& mldsa65_signature(self.seed.0@, message@, control_context()) is None
                    &&& e@ == "signing the handshake failed"@
                },
            },
    {
        match mldsa65_sign(&self.seed, message, "karst-control-v1".as_bytes()) {
            Some(s) => Ok(s),
            None => Err(String::from_str("signing the handshake failed")),
        }
    }

    /// Signs a message for a relay. Relays share the node's key but not the
    /// context, so that their signatures cannot be used on the control channel.
    pub fn sign_for_relay(&self, message: &[u8]) -> (r: Result<Vec<u8>, String>)
        ensures
            match r {
                Ok(s) => {
                    &&& mldsa65_signature(self.seed.0@, message@, relay_context()) == Some(s@)
                    &&& self.wf() ==> authentic(self.public@, message@, relay_context(), s@)
                },
                Err(e) => {
                    &&& mldsa65_signature(self.seed.0@, message@, relay_context()) is None
                    &&& e@ == "signing the relay handshake failed"@
                },
            },
    {
        match mldsa65_sign(&self.seed, message, "ponor-v1".as_bytes()) {
            Some(s) => Ok(s),
            None => Err(String::from_str("signing the relay handshake failed")),
        }
    }

    /// The verification key.
    pub fn public_key(&self) -> (r: Vec<u8>)
        ensures
            r@ == self.public@,
    {
        to_vec(self.public.as_slice())
    }
}

/// Whether a signature is good: key and signature have their lengths, and the
/// scheme accepts.
pub open spec fn authentic(
    key: Seq<u8>,
    message: Seq<u8>,
    context: Seq<u8>,
    signature: Seq<u8>,
) -> bool {
    &&& key.len() == VERIFY_KEY_LEN
    &&& signature.len() == SIGNATURE_LEN
    &&& mldsa65_accepts(key, message, context, signature)
}

/// Verifies the server's hello against the pinned key.
#[derive(Clone, Copy, Debug, PartialEq, Eq, Structural)]
pub struct ServerVerifier;

impl ServerVerifier {
    pub fn verify(&self, public_key: &[u8], message: &[u8], signature: &[u8]) -> (r: bool)
        ensures
            r == authentic(public_key@, message@, control_context(), signature@),
    {
        public_key.len() == VERIFY_KEY_LEN && signature.len() == SIGNATURE_LEN && mldsa65_verify(
            public_key,
            message,
            "karst-control-v1".as_bytes(),
            signature,
        )
    }
}

/// Verifies a relay's identity as pinned by the netmap.
#[derive(Clone, Copy, Debug, PartialEq, Eq, Structural)]
pub struct RelayVerifier;

impl RelayVerifier {
    pub fn verify(&self, public_key: &[u8], message: &[u8], signature: &[u8]) -> (r: bool)
        ensures
            r == authentic(public_key@, message@, relay_context(), signature@),
    {
        public_key.len() == VERIFY_KEY_LEN && signature.len() == SIGNATURE_LEN && mldsa65_verify(
            public_key,
            message,
            "ponor-v1".as_bytes(),
            signature,
        )
    }
}

/// The two contexts differ, so that no signature is good for both by sharing
/// one.
pub proof fn the_contexts_differ()
    ensures
        control_context() != relay_context(),
{
    reveal_strlit("karst-control-v1");
    reveal_strlit("ponor-v1");
    vstd::utf8::encode_utf8_decode_utf8("karst-control-v1"@);
    vstd::utf8::encode_utf8_decode_utf8("ponor-v1"@);
    assert("karst-control-v1"@.len() == 16);
    assert("ponor-v1"@.len() == 8);
}

/// The bytes of a pin of whatever length it has.
pub open spec fn pin_bytes(s: Seq<char>, field: Seq<char>) -> Result<Seq<u8>, Fault> {
    let t = trimmed(s);
    let n = encode_utf8(t).len();
    if n % 2 != 0 {
        Err(Fault::Key(field + " has an odd number of hex digits"@))
    } else {
        match decoded(t, n / 2, "key"@) {
            Ok(v) => Ok(v),
            Err(e) => Err(Fault::Key(field + ": "@ + e.text())),
        }
    }
}

fn decode_hex_any(s: &str, field: &str) -> (r: Result<Vec<u8>, Error>)
    ensures
        match (r, pin_bytes(s@, field@)) {
            (Ok(v), Ok(bytes)) => v@ == bytes,
            (Err(e), Err(f)) => e@ == f,
            _ => false,
        },
{
    let t = trim(s);
    let n: usize = byte_count(t.as_str());
    if n % 2 != 0 {
        return Err(Error::Key(joined(field, " has an odd number of hex digits")));
    }
    match decode_hex(t.as_str(), n / 2, "key") {
        Ok(v) => Ok(v),
        Err(e) => {
            let text = e.to_text();
            let mut message = joined(field, ": ");
            message.append(text.as_str());
            Err(Error::Key(message))
        },
    }
}

/// The server's pinned keys.
#[derive(Debug)]
pub struct ServerPins {
    pub static_kem: Vec<u8>,
    pub verify_key: Vec<u8>,
}

/// The pins of a section, or what is wrong with them. A mistyped pin stops the
/// daemon at startup with the field's name, not later as a failure to
/// authenticate a server that behaves perfectly.
pub open spec fn pins_of(section: ControlSection) -> Result<(Seq<u8>, Seq<u8>), Fault> {
    match pin_bytes(section.server_kem_pin@, "server_kem_pin"@) {
        Err(f) => Err(f),
        Ok(kem) => match pin_bytes(section.server_verify_pin@, "server_verify_pin"@) {
            Err(f) => Err(f),
            Ok(verify) => if verify.len() != VERIFY_KEY_LEN {
                Err(
                    Fault::Key(
                        "server_verify_pin is "@ + decimal_text(verify.len())
                            + " bytes, expected 1952 (ML-DSA-65)"@,
                    ),
                )
            } else if kem.len() != KEM_PIN_LEN {
                Err(
                    Fault::Key(
                        "server_kem_pin is "@ + decimal_text(kem.len())
                            + " bytes, expected 1184 (ML-KEM-768)"@,
                    ),
                )
            } else {
                Ok((kem, verify))
            },
        },
    }
}

fn read_pins(section: &ControlSection) -> (r: Result<ServerPins, Error>)
    ensures
        match (r, pins_of(*section)) {
            (Ok(pins), Ok((kem, verify))) => pins.static_kem@ == kem && pins.verify_key@ == verify,
            (Err(e), Err(f)) => e@ == f,
            _ => false,
        },
{
    let static_kem = match decode_hex_any(section.server_kem_pin.as_str(), "server_kem_pin") {
        Ok(v) => v,
        Err(e) => {
            return Err(e);
        },
    };
    let verify_key = match decode_hex_any(
        section.server_verify_pin.as_str(),
        "server_verify_pin",
    ) {
        Ok(v) => v,
        Err(e) => {
            return Err(e);
        },
    };
    if verify_key.len() != VERIFY_KEY_LEN {
        let n = decimal(verify_key.len() as u64);
        let mut message = joined("server_verify_pin is ", n.as_str());
        message.append(" bytes, expected 1952 (ML-DSA-65)");
        return Err(Error::Key(message));
    }
    if static_kem.len() != KEM_PIN_LEN {
        let n = decimal(static_kem.len() as u64);
        let mut message = joined("server_kem_pin is ", n.as_str());
        message.append(" bytes, expected 1184 (ML-KEM-768)");
        return Err(Error::Key(message));
    }
    Ok(ServerPins { static_kem, verify_key })
}

/// A node's relationship with its coordination server.
pub struct Client {
    pub endpoint: String,
    pub pins: ServerPins,
    pub identity: Identity,
    pub setup_key: Option<String>,
    pub cache_file: Option<String>,
    /// The keys that peers are given.
    pub kem_public: Vec<u8>,
    pub dh_public: Vec<u8>,
    /// Empty until the first registration completes.
    pub node_id: Vec<u8>,
}

/// A sealed cache, as the caller found it.
#[derive(Debug)]
pub enum CacheFile {
    Present { mode: u32 },
    Missing,
    Unreadable(String),
}

/// What unsealing and decoding a cache gives.
#[derive(Debug)]
pub enum Opened {
    /// It does not open under this node's key.
    Sealed(String),
    /// It opens, and is no netmap.
    Malformed(String),
    /// A netmap for this node, with so many peers.
    Held { node_id: Vec<u8>, peers: usize },
}

/// What became of the netmap.
#[derive(Clone, Copy, Debug, PartialEq, Eq, Structural)]
pub enum Outcome {
    /// The server has nothing newer.
    Unchanged,
    /// A whole netmap, with so many peers.
    Replaced { peers: usize },
    /// A delta was applied; so many peers are held now.
    Updated { peers: usize },
}

/// Why a netmap could not be applied.
#[derive(Debug)]
pub enum ApplyError {
    /// What this node holds is not what the server believes it sent.
    VersionMismatch(String),
    Other(String),
}

/// What a node presents when it registers.
pub struct LoginRequest {
    pub setup_key: String,
    pub hostname: String,
    pub kem_public_key: Vec<u8>,
    pub dh_public_key: Vec<u8>,
}

/// What is wrong with the handle that a server assigned, if anything.
pub open spec fn login_fault(node_id: Seq<u8>, expected: Seq<char>) -> Option<Fault> {
    if node_id.len() == 0 {
        Some(
            Fault::Protocol(
                "the server registered this node without giving it an identifier"@,
            ),
        )
    } else if node_id != encode_utf8(expected) {
        Some(
            Fault::Protocol(
                "the server assigned handle "@ + quoted_text(lossy_text(node_id))
                    + ", but this node's identity derives "@ + quoted_text(expected),
            ),
        )
    } else {
        None
    }
}

/// What a cached netmap gives: nothing on a cold start, which is no error.
pub open spec fn cached(
    path: Option<Seq<char>>,
    file: CacheFile,
    opened: Opened,
) -> Option<Result<Outcome, Fault>> {
    match (path, file) {
        (None, _) => None,
        (_, CacheFile::Missing) => None,
        (Some(path), CacheFile::Unreadable(e)) => Some(Err(Fault::Io { path, source: e@ })),
        (Some(path), CacheFile::Present { mode }) => Some(
            if mode % 0o100 != 0 {
                Err(Fault::Permissions { path, mode: mode % 0o1000 })
            } else {
                match opened {
                    Opened::Sealed(e) => Err(Fault::Cache(e@)),
                    Opened::Malformed(e) => Err(Fault::Netmap(e@)),
                    Opened::Held { node_id: _, peers } => Ok(Outcome::Replaced { peers }),
                }
            },
        ),
    }
}

impl Client {
    /// Everything but the handle is as in `other`.
    pub open spec fn same_but_handle(self, other: Client) -> bool {
        &&& self.endpoint == other.endpoint
        &&& self.pins == other.pins
        &&& self.identity == other.identity
        &&& self.setup_key == other.setup_key
        &&& self.cache_file == other.cache_file
        &&& self.kem_public == other.kem_public
        &&& self.dh_public == other.dh_public
    }

    /// Builds a client from the `[control]` section, for the node with these
    /// keys. `cache_file` is the section's, made absolute.
    pub fn new(
        section: &ControlSection,
        identity: Result<Identity, Error>,
        cache_file: Option<String>,
        keys: &KeySeeds,
    ) -> (r: Result<Client, Error>)
        ensures
            match identity {
                Err(e) => r is Err && r->Err_0@ == e@,
                Ok(id) => match (r, pins_of(*section)) {
                    (Ok(c), Ok((kem, verify))) => {
                        &&& c.endpoint@ == section.server@
                        &&& c.pins.static_kem@ == kem
                        &&& c.pins.verify_key@ == verify
                        &&& c.identity == id
                        &&& match section.setup_key {
                            Some(key) => c.setup_key is Some && c.setup_key->0@ == key@,
                            None => c.setup_key is None,
                        }
                        &&& c.cache_file == cache_file
                        &&& c.kem_public@ == mlkem768_public(keys.kem.0@)
                        &&& c.dh_public@ == x25519_public(keys.dh.0@)
                        &&& c.node_id@.len() == 0
                    },
                    (Err(e), Err(f)) => e@ == f,
                    _ => false,
                },
            },
    {
        let identity = match identity {
            Ok(id) => id,
            Err(e) => {
                return Err(e);
            },
        };
        let pins = match read_pins(section) {
            Ok(p) => p,
            Err(e) => {
                return Err(e);
            },
        };
        let setup_key = match &section.setup_key {
            Some(key) => Some(key.clone()),
            None => None,
        };
        let (kem_public, dh) = keys.public_keys();
        let dh_public = to_vec(dh.0.as_slice());
        Ok(
            Client {
                endpoint: section.server.clone(),
                pins,
                identity,
                setup_key,
                cache_file,
                kem_public,
                dh_public,
                node_id: Vec::new(),
            },
        )
    }

    /// Takes a cached netmap, so that the node can come up while the server is
    /// unreachable. A missing cache is a cold start, not an error; one that
    /// cannot be read, opened, or safely trusted is reported.
    pub fn load_cache(&mut self, file: CacheFile, opened: Opened) -> (r: Option<
        Result<Outcome, Error>,
    >)
        ensures
            final(self).same_but_handle(*old(self)),
            ({
                let path = match old(self).cache_file {
                    Some(p) => Some(p@),
                    None => None,
                };
                match (r, cached(path, file, opened)) {
                    (None, None) => final(self).node_id == old(self).node_id,
                    (Some(Err(e)), Some(Err(f))) => e@ == f && final(self).node_id == old(
                        self,
                    ).node_id,
                    (Some(Ok(a)), Some(Ok(b))) => {
                        &&& a == b
                        &&& opened matches Opened::Held { node_id, .. } && final(self).node_id
                            == node_id
                    },
                    _ => false,
                }
            }),
    {
        let path = match &self.cache_file {
            Some(p) => p.clone(),
            None => {
                return None;
            },
        };
        match file {
            CacheFile::Missing => None,
            CacheFile::Unreadable(e) => Some(Err(Error::Io { path, source: e })),
            CacheFile::Present { mode } => {
                match check_permissions(path.as_str(), mode) {
                    Ok(()) => {},
                    Err(e) => {
                        return Some(Err(e));
                    },
                }
                match opened {
                    Opened::Sealed(e) => Some(Err(Error::Cache(e))),
                    Opened::Malformed(e) => Some(Err(Error::Netmap(e))),
                    Opened::Held { node_id, peers } => {
                        self.node_id = node_id;
                        Some(Ok(Outcome::Replaced { peers }))
                    },
                }
            },
        }
    }

    /// Where the sealed cache is written: nowhere, for a node that opted out.
    pub fn save_cache(&self) -> (r: Option<&str>)
        ensures
            match r {
                Some(path) => self.cache_file is Some && path@ == self.cache_file->0@,
                None => self.cache_file is None,
            },
    {
        match &self.cache_file {
            Some(path) => Some(path.as_str()),
            None => None,
        }
    }

    /// Whether the node registers. One that the server knows does not present
    /// its key: that would be identity substitution.
    pub fn registering(&self) -> (r: bool)
        ensures
            r == (self.node_id@.len() == 0),
    {
        self.node_id.len() == 0
    }

    /// What the node presents when it registers.
    pub fn login_request(&self, hostname: &str) -> (r: LoginRequest)
        ensures
            r.setup_key@ == match self.setup_key {
                Some(key) => key@,
                None => ""@,
            },
            r.hostname@ == hostname@,
            r.kem_public_key@ == self.kem_public@,
            r.dh_public_key@ == self.dh_public@,
    {
        let setup_key = match &self.setup_key {
            Some(key) => key.clone(),
            None => String::from_str(""),
        };
        LoginRequest {
            setup_key,
            hostname: String::from_str(hostname),
            kem_public_key: to_vec(self.kem_public.as_slice()),
            dh_public_key: to_vec(self.dh_public.as_slice()),
        }
    }

    /// Takes the handle that the server assigned. It is checked, not trusted:
    /// `expected` is what this node's identity derives, and adopting another
    /// would make every later request ask for another node's netmap.
    pub fn login(&mut self, node_id: Vec<u8>, expected: &str) -> (r: Result<(), Error>)
        ensures
            final(self).same_but_handle(*old(self)),
            match login_fault(node_id@, expected@) {
                Some(f) => r is Err && r->Err_0@ == f && final(self).node_id == old(self).node_id,
                None => r is Ok && final(self).node_id == node_id,
            },
    {
        if node_id.len() == 0 {
            return Err(
                Error::Protocol(
                    String::from_str(
                        "the server registered this node without giving it an identifier",
                    ),
                ),
            );
        }
        if !same_bytes(node_id.as_slice(), expected.as_bytes()) {
            let shown = lossy(node_id.as_slice());
            let got = quoted(shown.as_str());
            let wanted = quoted(expected);
            let mut message = joined("the server assigned handle ", got.as_str());
            message.append(", but this node's identity derives ");
            message.append(wanted.as_str());
            return Err(Error::Protocol(message));
        }
        self.node_id = node_id;
        Ok(())
    }

    /// The payload of a request: its kind, and its body.
    pub fn request(kind: u8, body: &[u8]) -> (r: Vec<u8>)
        ensures
            r@ == seq![kind] + body@,
    {
        let mut payload: Vec<u8> = Vec::new();
        payload.push(kind);
        payload.extend_from_slice(body);
        assert(payload@ =~= seq![kind] + body@);
        payload
    }

    /// What applying a netmap comes to, and whether the held one is thrown
    /// away. A view that is not what the server believes it sent is never
    /// repaired: every later request would describe a netmap that this node
    /// does not hold.
    pub fn fetch(applied: Result<Outcome, ApplyError>) -> (r: (Result<Outcome, Error>, bool))
        ensures
            match applied {
                Ok(outcome) => r == (Ok::<Outcome, Error>(outcome), false),
                Err(ApplyError::VersionMismatch(e)) => r.0 is Err && r.0->Err_0@ == Fault::Netmap(
                    e@,
                ) && r.1,
                Err(ApplyError::Other(e)) => r.0 is Err && r.0->Err_0@ == Fault::Netmap(e@)
                    && !r.1,
            },
    {
        match applied {
            Ok(outcome) => (Ok(outcome), false),
            Err(ApplyError::VersionMismatch(e)) => (Err(Error::Netmap(e)), true),
            Err(ApplyError::Other(e)) => (Err(Error::Netmap(e)), false),
        }
    }
}

/// The name that the node registers under.
pub fn hostname(contents: Option<&str>) -> (s: String)
    ensures
        s@ == match contents {
            Some(text) => trimmed(text@),
            None => "karst-node"@,
        },
{
    match contents {
        Some(text) => trim(text),
        None => String::from_str("karst-node"),
    }
}

/// What a configuration file resolved to.
#[derive(Clone, Copy, Debug, PartialEq, Eq, Structural)]
pub enum Source {
    /// A static roster. No control server is involved.
    Roster,
    /// A netmap from the coordination server.
    Server { origin: Origin, peers: usize },
}

/// Whether a netmap arrived from the server or from the cache.
#[derive(Clone, Copy, Debug, PartialEq, Eq, Structural)]
pub enum Origin {
    Server,
    /// The server could not be reached, and the node comes up with what it last
    /// knew.
    Cache,
}

/// What is wrong with a file that names a server, if anything: the peer set has
/// one source, and the server assigns the addresses.
pub open spec fn managed_fault(file: File) -> Option<Fault> {
    if file.peers@.len() > 0 {
        Some(
            Fault::Protocol(
                "this configuration names both [[peer]] and [control]; the peer set has one source or the other, and which wins has no good answer"@,
            ),
        )
    } else if file.node.addresses@.len() > 0 {
        Some(
            Fault::Protocol(
                "node.addresses is set on a server-managed node; its addresses are assigned by the coordination server"@,
            ),
        )
    } else {
        None
    }
}

/// Refuses a server-managed file that also says what the server is to say.
pub fn check_managed(file: &File) -> (r: Result<(), Error>)
    ensures
        match managed_fault(*file) {
            Some(f) => r is Err && r->Err_0@ == f,
            None => r is Ok,
        },
{
    if file.peers.len() > 0 {
        return Err(
            Error::Protocol(
                String::from_str(
                    "this configuration names both [[peer]] and [control]; the peer set has one source or the other, and which wins has no good answer",
                ),
            ),
        );
    }
    if file.node.addresses.len() > 0 {
        return Err(
            Error::Protocol(
                String::from_str(
                    "node.addresses is set on a server-managed node; its addresses are assigned by the coordination server",
                ),
            ),
        );
    }
    Ok(())
}

/// `r` is what a file that names no server gives: its roster, with the NAT64
/// prefix that was settled at startup.
pub open spec fn roster_result(
    file: File,
    seed: Result<String, ConfigError>,
    nat64: Option<Nat64Prefix>,
    r: Result<(Config, Source, Option<Client>), Error>,
) -> bool {
    match (r, file_facts(file, seed)) {
        (Err(e), Err(f)) => e@ == Fault::Config(f),
        (Ok((c, source, client)), Ok((seed, addresses, roster))) => {
            &&& c.wf()
            &&& (Config { nat64: None, ..c }).holds_roster(file, seed, addresses, roster)
            &&& c.nat64 == nat64
            &&& source == Source::Roster
            &&& client is None
        },
        _ => false,
    }
}

/// A netmap that the rest of the library can work on.
pub open spec fn usable(netmap: Netmap) -> bool {
    &&& valid_interfaces(netmap.addresses@)
    &&& forall|i: int|
        0 <= i < netmap.peers@.len() ==> valid_prefixes((#[trigger] netmap.peers@[i]).allowed_ips@)
    &&& forall|i: int|
        0 <= i < netmap.egress_filter@.len() ==> valid_cidrs(#[trigger] netmap.egress_filter@[i])
}

/// What a server-managed node configures locally.
pub open spec fn local_of(
    file: File,
    keys: KeySeeds,
    relay_ca_file: Option<String>,
    nat64: Option<Nat64Prefix>,
) -> LocalSettings {
    LocalSettings {
        keys,
        listen: file.node.listen,
        port_mapping: file.node.port_mapping,
        interface: file.node.interface,
        network_mode: file.node.network_mode,
        userspace_socks5_listen: file.node.userspace_socks5_listen,
        userspace_publish: file.node.userspace_publish,
        nat64,
        relay_ca_file,
    }
}

/// The netmap to come up on, and where it is from: the server's, else the
/// cached one. With neither, the error of the server: a node without peers
/// would silently carry no traffic.
pub open spec fn chosen_netmap(
    synced: Result<Netmap, Error>,
    cache: Option<Netmap>,
) -> Result<(Netmap, Origin), Fault> {
    match synced {
        Ok(map) => Ok((map, Origin::Server)),
        Err(e) => match cache {
            Some(map) => Ok((map, Origin::Cache)),
            None => Err(e@),
        },
    }
}

/// What is wrong with the client of a server-managed node, if anything: what
/// stopped it from being built, else the pins of the file.
pub open spec fn client_fault(section: ControlSection, client: Result<Client, Error>) -> Option<
    Fault,
> {
    match client {
        Err(e) => Some(e@),
        Ok(_) => match pins_of(section) {
            Err(f) => Some(f),
            Ok(_) => None,
        },
    }
}

/// The configuration `c` is the one that a server-managed file gives, and
/// `source` says where its netmap is from.
pub open spec fn managed_config(
    file: File,
    seed: Result<String, ConfigError>,
    client: Result<Client, Error>,
    relay_ca_file: Option<String>,
    nat64: Option<Nat64Prefix>,
    synced: Result<Netmap, Error>,
    cache: Option<Netmap>,
    c: Config,
    source: Source,
) -> bool {
    &&& managed_fault(file) is None
    &&& key_facts(seed) is Ok
    &&& client_fault(file.control->0, client) is None
    &&& chosen_netmap(synced, cache) is Ok
    &&& exists|keys: KeySeeds|
        {
            let local = local_of(file, keys, relay_ca_file, nat64);
            let (map, origin) = chosen_netmap(synced, cache)->Ok_0;
            &&& #[trigger] seed_halves(key_facts(seed)->Ok_0, keys)
            &&& netmap_facts(local, map) is Ok
            &&& c.wf()
            &&& c.holds_netmap(
                local,
                map,
                (netmap_facts(local, map)->Ok_0).0,
                (netmap_facts(local, map)->Ok_0).1,
            )
            &&& source == (Source::Server { origin, peers: c.peers@.len() as usize })
        }
}

/// `r` is what a file that names a server gives.
pub open spec fn managed_result(
    file: File,
    seed: Result<String, ConfigError>,
    client: Result<Client, Error>,
    relay_ca_file: Option<String>,
    nat64: Option<Nat64Prefix>,
    synced: Result<Netmap, Error>,
    cache: Option<Netmap>,
    r: Result<(Config, Source, Option<Client>), Error>,
) -> bool {
    match r {
        Ok((c, source, held)) => {
            &&& managed_config(
                file,
                seed,
                client,
                relay_ca_file,
                nat64,
                synced,
                cache,
                c,
                source,
            )
            &&& client is Ok
            &&& held == Some(client->Ok_0)
        },
        Err(e) => {
            if managed_fault(file) is Some {
                e@ == managed_fault(file)->0
            } else if key_facts(seed) is Err {
                e@ == Fault::Config(key_facts(seed)->Err_0)
            } else if client_fault(file.control->0, client) is Some {
                e@ == client_fault(file.control->0, client)->0
            } else if chosen_netmap(synced, cache) is Err {
                e@ == chosen_netmap(synced, cache)->Err_0
            } else {
                exists|keys: KeySeeds|
                    {
                        let local = local_of(file, keys, relay_ca_file, nat64);
                        let map = (chosen_netmap(synced, cache)->Ok_0).0;
                        &&& #[trigger] seed_halves(key_facts(seed)->Ok_0, keys)
                        &&& netmap_facts(local, map) is Err
                        &&& e@ == Fault::Config(netmap_facts(local, map)->Err_0)
                    }
            }
        },
    }
}

/// Loads a configuration from whichever source the file names: its own roster,
/// or the netmap of a server. `nat64` is the prefix that this node reaches IPv4
/// through, if any. For a server, `client` is what building the client gave,
/// `synced` what fetching the netmap with it gave, and `cache` the cached one,
/// if there is one; a managed node never comes up without its client. A
/// mistyped pin stops the start, whatever netmap there is.
pub fn load_config(
    file: File,
    seed: Result<String, ConfigError>,
    client: Result<Client, Error>,
    relay_ca_file: Option<String>,
    nat64: Option<Nat64Prefix>,
    synced: Result<Netmap, Error>,
    cache: Option<Netmap>,
) -> (r: Result<(Config, Source, Option<Client>), Error>)
    requires
        valid_interfaces(file.node.addresses@),
        valid_sections(file.peers@),
        nat64 is Some ==> nat64->0.wf(),
        synced is Ok ==> usable(synced->Ok_0),
        cache is Some ==> usable(cache->0),
    ensures
        if file.control is None {
            roster_result(file, seed, nat64, r)
        } else {
            managed_result(file, seed, client, relay_ca_file, nat64, synced, cache, r)
        },
{
    let section = match &file.control {
        Some(section) => section,
        None => {
            return match Config::from_file(file, seed) {
                Ok(c) => Ok((Config { nat64, ..c }, Source::Roster, None)),
                Err(e) => Err(Error::Config(e)),
            };
        },
    };
    match check_managed(&file) {
        Ok(()) => {},
        Err(e) => {
            return Err(e);
        },
    }
    let keys = match load_keys(seed) {
        Ok(keys) => keys,
        Err(e) => {
            return Err(Error::Config(e));
        },
    };
    let client = match client {
        Ok(client) => client,
        Err(e) => {
            return Err(e);
        },
    };
    match read_pins(section) {
        Ok(_) => {},
        Err(e) => {
            return Err(e);
        },
    }
    let (map, origin) = match synced {
        Ok(map) => (map, Origin::Server),
        Err(e) => match cache {
            Some(map) => (map, Origin::Cache),
            None => {
                return Err(e);
            },
        },
    };
    let ghost whole = file;
    let local = LocalSettings {
        keys,
        listen: file.node.listen,
        port_mapping: file.node.port_mapping,
        interface: file.node.interface,
        network_mode: file.node.network_mode,
        userspace_socks5_listen: file.node.userspace_socks5_listen,
        userspace_publish: file.node.userspace_publish,
        nat64,
        relay_ca_file,
    };
    assert(seed_halves(key_facts(seed)->Ok_0, keys));
    assert(local == local_of(whole, keys, relay_ca_file, nat64));
    match Config::from_netmap(local, &map) {
        Ok(c) => {
            let peers: usize = c.peers.len();
            Ok((c, Source::Server { origin, peers }, Some(client)))
        },
        Err(e) => Err(Error::Config(e)),
    }
}

/// A mistyped pin stops the start: no netmap, fetched or cached, makes up for
/// it.
pub proof fn a_mistyped_pin_stops_the_start(
    file: File,
    seed: Result<String, ConfigError>,
    client: Result<Client, Error>,
    relay_ca_file: Option<String>,
    nat64: Option<Nat64Prefix>,
    synced: Result<Netmap, Error>,
    cache: Option<Netmap>,
    r: Result<(Config, Source, Option<Client>), Error>,
)
    requires
        file.control is Some,
        pins_of(file.control->0) is Err,
        managed_result(file, seed, client, relay_ca_file, nat64, synced, cache, r),
    ensures
        r is Err,
{
}

/// An outage of the server does not take a node with a cache down.
pub proof fn a_cache_survives_an_outage(synced: Result<Netmap, Error>, cache: Option<Netmap>)
    requires
        cache is Some,
    ensures
        chosen_netmap(synced, cache) is Ok,
        synced is Err ==> chosen_netmap(synced, cache)->Ok_0 == (cache->0, Origin::Cache),
{
}

/// A cache that others can read is refused, whatever it holds.
pub proof fn a_readable_cache_is_refused(path: Seq<char>, mode: u32, opened: Opened)
    requires
        mode % 0o100 != 0,
    ensures
        cached(Some(path), CacheFile::Present { mode }, opened) == Some(
            Err::<Outcome, Fault>(Fault::Permissions { path, mode: mode % 0o1000 }),
        ),
{
}

/// A file is kept from others if neither its group nor anyone else has any right
/// to it; a refusal names the file and its rights.
pub proof fn a_key_file_is_its_owners(
    path: &str,
    mode: u32,
    r: Result<(), Error>,
    e: Error,
    s: String,
    rights: String,
)
    requires
        call_ensures(check_permissions, (path, mode), r),
        r matches Err(x) ==> x == e,
        call_ensures(Error::to_text, (&e,), s),
        call_ensures(octal, ((mode % 0o1000) as u64,), rights),
    ensures
        r is Ok <==> mode % 8 == 0 && (mode / 8) % 8 == 0,
        r is Err ==> s@ == path@ + " is mode "@ + padded(rights@, 4)
            + "; it holds key material and must not be readable by group or other (chmod 600)"@,
{
}

/// An identity that was created is the same when it is loaded from the text that
/// was kept of it. One that others may read is refused, one that cannot be read is
/// an error, and where there is none one is made and its text handed out.
pub proof fn an_identity_is_loaded_as_it_was_created(
    seed: &Bytes<32>,
    made: (Identity, String),
    path: &str,
    text: String,
    mode: u32,
    r: Result<(Identity, Option<String>), Error>,
    reason: String,
    unreadable: Result<(Identity, Option<String>), Error>,
    missing: Result<(Identity, Option<String>), Error>,
)
    requires
        call_ensures(Identity::created, (seed,), made),
        text@ == made.1@,
        call_ensures(Identity::load_or_create, (path, KeyFile::Present { text, mode }), r),
        call_ensures(Identity::load_or_create, (path, KeyFile::Unreadable(reason)), unreadable),
        call_ensures(Identity::load_or_create, (path, KeyFile::Missing), missing),
    ensures
        made.0.seed == *seed,
        r is Ok <==> mode % 8 == 0 && (mode / 8) % 8 == 0,
        r matches Ok(x) ==> {
            &&& x.0.seed.0@ == seed.0@
            &&& x.0.public@ == made.0.public@
            &&& x.0.cache_key.0@ == made.0.cache_key.0@
            &&& x.1 is None
        },
        unreadable matches Err(Error::Io { path: p, source }) && p@ == path@ && source@ == reason@,
        missing matches Ok(x) ==> x.1 is Some && x.1->0@ == hex_of(x.0.seed.0@),
        missing matches Err(e) ==> e is Key,
{
    crate::config::hex_round_trips(seed.0@, "key"@);
    if let Err(e) = unreadable {
        assert(e@ is Io);
    }
}

/// What an identity signs for the server the server's verifier accepts under the
/// identity's public key, and what it signs for a relay the relay's; the two are
/// signed under different contexts.
pub proof fn what_is_signed_is_accepted(
    id: Identity,
    seed: &Bytes<32>,
    message: &[u8],
    s: Result<Vec<u8>, String>,
    t: Result<Vec<u8>, String>,
    public: Vec<u8>,
    key: &[u8],
    signature: &[u8],
    a: bool,
    relayed: &[u8],
    b: bool,
)
    requires
        call_ensures(Identity::from_seed, (seed,), id),
        call_ensures(Identity::public_key, (&id,), public),
        key@ == public@,
        call_ensures(Identity::sign, (&id, message), s),
        s matches Ok(x) ==> signature@ == x@,
        call_ensures(ServerVerifier::verify, (&ServerVerifier, key, message, signature), a),
        call_ensures(Identity::sign_for_relay, (&id, message), t),
        t matches Ok(x) ==> relayed@ == x@,
        call_ensures(RelayVerifier::verify, (&RelayVerifier, key, message, relayed), b),
    ensures
        s is Ok ==> a,
        t is Ok ==> b,
        id.seed == *seed && public@ == id.public@,
        control_context() != relay_context(),
        s matches Err(e) ==> e@ == "signing the handshake failed"@,
        t matches Err(e) ==> e@ == "signing the relay handshake failed"@,
{
    the_contexts_differ();
}

/// A key or a signature of the wrong length verifies nothing.
pub proof fn a_misshapen_signature_is_refused(
    key: &[u8],
    message: &[u8],
    signature: &[u8],
    a: bool,
    b: bool,
)
    requires
        key@.len() != 1952 || signature@.len() != 3309,
        call_ensures(ServerVerifier::verify, (&ServerVerifier, key, message, signature), a),
        call_ensures(RelayVerifier::verify, (&RelayVerifier, key, message, signature), b),
    ensures
        !a && !b,
{
}

/// A client is set up for the server that its section names: with the pins that
/// it gives in hexadecimal, which must be of their keys' lengths, with the setup
/// key if there is one, and with the public halves of the node's own keys. It
/// has no handle yet. Without an identity there is no client.
pub proof fn a_client_pins_its_server(
    section: &ControlSection,
    identity: Result<Identity, Error>,
    cache: Option<String>,
    keys: &KeySeeds,
    r: Result<Client, Error>,
    kem: &[u8],
    kem_text: String,
    verify: &[u8],
    verify_text: String,
    public: (Vec<u8>, Bytes<32>),
    registering: bool,
    file: Option<&str>,
    host: &str,
    request: LoginRequest,
)
    requires
        call_ensures(Client::new, (section, identity, cache, keys), r),
        call_ensures(encode_hex, (kem,), kem_text),
        call_ensures(encode_hex, (verify,), verify_text),
        section.server_kem_pin@ == kem_text@,
        section.server_verify_pin@ == verify_text@,
        call_ensures(KeySeeds::public_keys, (keys,), public),
        r matches Ok(c) ==> call_ensures(Client::registering, (&c,), registering) && call_ensures(
            Client::save_cache,
            (&c,),
            file,
        ) && call_ensures(Client::login_request, (&c, host), request),
    ensures
        r is Ok <==> identity is Ok && kem@.len() == 1184 && verify@.len() == 1952,
        r matches Ok(c) ==> {
            &&& c.endpoint@ == section.server@
            &&& c.pins.static_kem@ == kem@
            &&& c.pins.verify_key@ == verify@
            &&& c.identity == identity->Ok_0
            &&& registering
            &&& file is Some <==> cache is Some
            &&& file is Some ==> file->0@ == cache->0@
            &&& request.hostname@ == host@
            &&& request.kem_public_key@ == public.0@
            &&& request.dh_public_key@ == public.1.0@
            &&& request.setup_key@ == match section.setup_key {
                Some(key) => key@,
                None => ""@,
            }
        },
        identity matches Err(e) ==> r->Err_0@ == e@,
{
    lemma_pin(kem@, "server_kem_pin"@);
    lemma_pin(verify@, "server_verify_pin"@);
}

proof fn lemma_pin(bytes: Seq<u8>, field: Seq<char>)
    ensures
        pin_bytes(hex_of(bytes), field) == Ok::<Seq<u8>, Fault>(bytes),
{
    crate::config::hex_round_trips(bytes, "key"@);
    crate::config::lemma_hex_is_plain(bytes);
}

/// A handle is taken over only if the server gave one and it is the one that the
/// node's own identity derives; whatever else, the client stays as it was.
pub proof fn a_handle_must_be_the_nodes_own(
    c: &mut Client,
    handle: Vec<u8>,
    expected: &str,
    r: Result<(), Error>,
    registering: bool,
)
    requires
        call_ensures(Client::login, (c, handle, expected), r),
        call_ensures(Client::registering, (&*final(c),), registering),
    ensures
        r is Ok <==> handle@.len() > 0 && handle@ == encode_utf8(expected@),
        r is Ok ==> final(c).node_id == handle && !registering,
        r is Err ==> final(c).node_id == old(c).node_id && r->Err_0 is Protocol,
        final(c).endpoint == old(c).endpoint && final(c).pins == old(c).pins && final(c).identity
            == old(c).identity && final(c).cache_file == old(c).cache_file && final(c).setup_key
            == old(c).setup_key,
{
    if let Err(e) = r {
        assert(e@ is Protocol);
    }
}

/// A cache is used if it was configured, is there, and is kept from others; it
/// then gives the handle and the peers that it holds. Otherwise the client stays
/// as it was, and what is wrong is said.
pub proof fn a_cache_gives_what_it_holds(
    c: &mut Client,
    file: CacheFile,
    opened: Opened,
    r: Option<Result<Outcome, Error>>,
)
    requires
        call_ensures(Client::load_cache, (c, file, opened), r),
    ensures
        r is None <==> old(c).cache_file is None || file is Missing,
        r matches Some(Ok(outcome)) ==> {
            &&& file matches CacheFile::Present { mode } && mode % 8 == 0 && (mode / 8) % 8 == 0
            &&& opened matches Opened::Held { node_id, peers } && outcome == (Outcome::Replaced {
                peers,
            }) && final(c).node_id == node_id
        },
        old(c).cache_file is Some && opened is Held && (file matches CacheFile::Present { mode }
            && mode % 8 == 0 && (mode / 8) % 8 == 0) ==> r is Some && r->0 is Ok,
        !(r is Some && r->0 is Ok) ==> final(c).node_id == old(c).node_id,
        r matches Some(Err(e)) ==> {
            &&& file is Unreadable ==> e is Io
            &&& (file matches CacheFile::Present { mode } && !(mode % 8 == 0 && (mode / 8) % 8
                == 0)) ==> e is Permissions
        },
{
    if let Some(Err(e)) = r {
        match file {
            CacheFile::Unreadable(_) => {
                assert(e@ is Io);
            },
            CacheFile::Present { mode } => {
                if mode % 0o100 != 0 {
                    assert(e@ is Permissions);
                }
            },
            CacheFile::Missing => {},
        }
    }
}

/// A request is its kind and then its body; what an update came to is passed on,
/// and one for another version asks for the whole netmap again.
pub proof fn a_request_is_its_kind_and_body(
    kind: u8,
    body: &[u8],
    r: Vec<u8>,
    outcome: Outcome,
    good: (Result<Outcome, Error>, bool),
    reason: String,
    stale: (Result<Outcome, Error>, bool),
    other: (Result<Outcome, Error>, bool),
)
    requires
        call_ensures(Client::request, (kind, body), r),
        call_ensures(Client::fetch, (Ok::<Outcome, ApplyError>(outcome),), good),
        call_ensures(
            Client::fetch,
            (Err::<Outcome, ApplyError>(ApplyError::VersionMismatch(reason)),),
            stale,
        ),
        call_ensures(
            Client::fetch,
            (Err::<Outcome, ApplyError>(ApplyError::Other(reason)),),
            other,
        ),
    ensures
        r@.len() == body@.len() + 1,
        r@[0] == kind && r@.skip(1) == body@,
        good.0 is Ok && good.0->Ok_0 == outcome && !good.1,
        stale.0 is Err && stale.1,
        other.0 is Err && !other.1,
        stale.0->Err_0@ == Fault::Netmap(reason@) && other.0->Err_0@ == Fault::Netmap(reason@),
{
    assert(r@.skip(1) =~= body@);
}

/// A node is called what its host's name file says, without the white space
/// around it, and has a name without one.
pub proof fn a_host_has_a_name(contents: &str, text: String, named: String, plain: String)
    requires
        call_ensures(trim, (contents,), text),
        call_ensures(hostname, (Some(contents),), named),
        call_ensures(hostname, (None::<&str>,), plain),
    ensures
        named@ == text@,
        plain@ == "karst-node"@,
{
}

/// Each fault is told apart by what stands in front of it.
pub proof fn a_fault_says_what_it_is_about(
    m: String,
    path: String,
    key: String,
    server: String,
    protocol: String,
    netmap: String,
    cache: String,
    io: String,
)
    requires
        call_ensures(Error::to_text, (&Error::Key(m),), key),
        call_ensures(Error::to_text, (&Error::Server(m),), server),
        call_ensures(Error::to_text, (&Error::Protocol(m),), protocol),
        call_ensures(Error::to_text, (&Error::Netmap(m),), netmap),
        call_ensures(Error::to_text, (&Error::Cache(m),), cache),
        call_ensures(Error::to_text, (&Error::Io { path, source: m },), io),
    ensures
        key@ == "key: "@ + m@,
        server@ == "server: "@ + m@,
        protocol@ == "protocol: "@ + m@,
        netmap@ == "netmap: "@ + m@,
        cache@ == "cache: "@ + m@,
        io@ == path@ + ": "@ + m@,
{
}

/// A server-managed node's file names neither peers nor addresses.
pub proof fn a_managed_node_names_no_peers(file: &File, r: Result<(), Error>)
    requires
        call_ensures(check_managed, (file,), r),
    ensures
        r is Ok <==> file.peers@.len() == 0 && file.node.addresses@.len() == 0,
        r matches Err(e) ==> e is Protocol,
{
    if let Err(e) = r {
        assert(e@ is Protocol);
    }
}

/// A node without a server takes its peers from its file. A managed one takes
/// them from the server, and from the cache while the server cannot be reached;
/// it keeps its client, and its own settings are the file's either way.
pub proof fn a_node_takes_its_peers_from_one_source(
    file: File,
    seed: Result<String, ConfigError>,
    client: Result<Client, Error>,
    ca: Option<String>,
    nat64: Option<Nat64Prefix>,
    synced: Result<Netmap, Error>,
    cache: Option<Netmap>,
    r: Result<(Config, Source, Option<Client>), Error>,
    managed: Result<(), Error>,
)
    requires
        call_ensures(load_config, (file, seed, client, ca, nat64, synced, cache), r),
        call_ensures(check_managed, (&file,), managed),
    ensures
        r matches Ok((c, source, held)) ==> {
            &&& c.listen == file.node.listen && c.interface == file.node.interface
                && c.network_mode == file.node.network_mode && c.port_mapping
                == file.node.port_mapping && c.nat64 == nat64
            &&& file.control is None ==> source is Roster && held is None
            &&& file.control is Some ==> {
                &&& managed is Ok && client is Ok && held == Some(client->Ok_0)
                &&& source matches Source::Server { origin, peers } && peers == c.peers@.len() && (
                origin is Server <==> synced is Ok)
                &&& synced is Err ==> cache is Some
                &&& c.relay_ca_file == ca
                &&& c.psk_epoch == (if synced is Ok {
                    synced->Ok_0
                } else {
                    cache->0
                }).psk_epoch
                &&& c.node_id@ == (if synced is Ok {
                    synced->Ok_0
                } else {
                    cache->0
                }).node_id@
            }
        },
        file.control is Some && managed is Ok && seed is Ok && client is Ok && synced is Err
            && cache is None ==> r is Err,
        file.control is Some && managed is Err ==> r is Err && r->Err_0@ == managed->Err_0@,
{
    if let Ok((c, source, held)) = r {
        assert(c.peers@.len() == c.peers.len());
    }
}

/// An identity is derived from its seed alone: its public key, and the key of its
/// cache, which is a hash of the seed under a label of its own. It signs for the
/// server and for a relay under their own contexts.
pub proof fn an_identity_is_derived_from_its_seed(
    seed: &Bytes<32>,
    id: Identity,
    message: &[u8],
    s: Result<Vec<u8>, String>,
    t: Result<Vec<u8>, String>,
)
    requires
        call_ensures(Identity::from_seed, (seed,), id),
        call_ensures(Identity::sign, (&id, message), s),
        call_ensures(Identity::sign_for_relay, (&id, message), t),
    ensures
        id.public@ == mldsa65_public(seed.0@),
        id.cache_key.0@ == sha256_of(encode_utf8("karst-netmap-cache-key-v1"@) + seed.0@),
        s matches Ok(x) ==> mldsa65_signature(
            seed.0@,
            message@,
            encode_utf8("karst-control-v1"@),
        ) == Some(x@),
        t matches Ok(x) ==> mldsa65_signature(seed.0@, message@, encode_utf8("ponor-v1"@)) == Some(
            x@,
        ),
{
}

/// What is verified is what was signed under the context of the one it is for.
pub proof fn a_signature_is_verified_under_its_context(
    key: &[u8],
    message: &[u8],
    signature: &[u8],
    a: bool,
    b: bool,
)
    requires
        call_ensures(ServerVerifier::verify, (&ServerVerifier, key, message, signature), a),
        call_ensures(RelayVerifier::verify, (&RelayVerifier, key, message, signature), b),
    ensures
        a <==> key@.len() == 1952 && signature@.len() == 3309 && mldsa65_accepts(
            key@,
            message@,
            encode_utf8("karst-control-v1"@),
            signature@,
        ),
        b <==> key@.len() == 1952 && signature@.len() == 3309 && mldsa65_accepts(
            key@,
            message@,
            encode_utf8("ponor-v1"@),
            signature@,
        ),
{
}

/// What is wrong with a managed file, or with a handle that a server gave, is
/// said: peers before addresses, and a missing handle before a foreign one.
pub proof fn a_refused_start_says_why(
    file: &File,
    r: Result<(), Error>,
    c: &mut Client,
    handle: Vec<u8>,
    expected: &str,
    q: Result<(), Error>,
)
    requires
        call_ensures(check_managed, (file,), r),
        call_ensures(Client::login, (c, handle, expected), q),
    ensures
        file.peers@.len() > 0 ==> r->Err_0@ == Fault::Protocol(
            "this configuration names both [[peer]] and [control]; the peer set has one source or the other, and which wins has no good answer"@,
        ),
        file.peers@.len() == 0 && file.node.addresses@.len() > 0 ==> r->Err_0@ == Fault::Protocol(
            "node.addresses is set on a server-managed node; its addresses are assigned by the coordination server"@,
        ),
        handle@.len() == 0 ==> q->Err_0@ == Fault::Protocol(
            "the server registered this node without giving it an identifier"@,
        ),
        handle@.len() > 0 && q is Err ==> q->Err_0@ == Fault::Protocol(
            "the server assigned handle "@ + quoted_text(lossy_text(handle@))
                + ", but this node's identity derives "@ + quoted_text(expected@),
        ),
{
}

/// A pin of the wrong length is refused by name and with both lengths; the
/// signature pin is looked at first.
pub proof fn a_pin_of_the_wrong_length_is_named(
    section: &ControlSection,
    identity: Identity,
    cache: Option<String>,
    keys: &KeySeeds,
    r: Result<Client, Error>,
    kem: &[u8],
    kem_text: String,
    verify: &[u8],
    verify_text: String,
    a: String,
    b: String,
)
    requires
        call_ensures(Client::new, (section, Ok::<Identity, Error>(identity), cache, keys), r),
        call_ensures(encode_hex, (kem,), kem_text),
        call_ensures(encode_hex, (verify,), verify_text),
        section.server_kem_pin@ == kem_text@,
        section.server_verify_pin@ == verify_text@,
        call_ensures(decimal, (verify.len() as u64,), a),
        call_ensures(decimal, (kem.len() as u64,), b),
    ensures
        verify@.len() != 1952 ==> r->Err_0@ == Fault::Key(
            "server_verify_pin is "@ + a@ + " bytes, expected 1952 (ML-DSA-65)"@,
        ),
        verify@.len() == 1952 && kem@.len() != 1184 ==> r->Err_0@ == Fault::Key(
            "server_kem_pin is "@ + b@ + " bytes, expected 1184 (ML-KEM-768)"@,
        ),
{
    lemma_pin(kem@, "server_kem_pin"@);
    lemma_pin(verify@, "server_verify_pin"@);
    assert(verify@.len() == verify.len() && kem@.len() == kem.len());
}

} // verus!

//! The control client: identity, pins, cache and the choice of configuration.

use karstd::bytes::Bytes;
use karstd::config::{encode_hex, ControlSection, KeySeeds};
use karstd::control::{
    hostname, ApplyError, CacheFile, Client, Error, Identity, KeyFile, Opened, Outcome,
    RelayVerifier, ServerVerifier, IDENTITY_SEED_LEN, KIND_LOGIN, KIND_NETMAP,
};
use karstd::secrets::{Ending, Replacing, Step};
use sha2::Digest;

fn identity(byte: u8) -> Identity {
    Identity::from_seed(&Bytes([byte; IDENTITY_SEED_LEN]))
}

fn loaded(path: &str, file: KeyFile) -> (Identity, Option<String>) {
    match Identity::load_or_create(path, file) {
        Ok(r) => r,
        Err(e) => panic!("{}", e.to_text()),
    }
}

#[test]
fn an_identity_is_created_once_and_reused() {
    let (first, text) = loaded("identity.key", KeyFile::Missing);
    let text = text.expect("a new key file is to be written");
    let (second, again) = loaded("identity.key", KeyFile::Present { text, mode: 0o100600 });
    assert_eq!(again, None, "an existing key file is not written again");
    assert_eq!(
        first.public_key(),
        second.public_key(),
        "the node's key changed across a restart"
    );
}

#[test]
fn a_created_identity_is_not_world_readable() {
    let (_, text) = loaded("identity.key", KeyFile::Missing);
    assert!(text.is_some(), "a new key file is to be written");
    let mut replacing = Replacing::write_secret_bytes(true);
    let file = replacing.creation().expect("the file is created first");
    assert_eq!(file.mode, 0o600);
    assert_eq!(file.mode & 0o077, 0, "a secret is created with mode {:04o}", file.mode);
    assert!(file.exclusive);
    replacing.report(Ending::Done);
    assert_eq!(replacing.creation(), None, "nothing else is created");
}

#[test]
fn cache_key_is_not_derivable_from_the_public_identity() {
    let identity = identity(0x42);
    let mut public_only = sha2::Sha256::new();
    public_only.update(b"karst-netmap-cache-key-v1");
    public_only.update(&identity.public);
    let public_only: [u8; 32] = public_only.finalize().into();
    assert_ne!(identity.cache_key.0, public_only);

    let mut from_seed = sha2::Sha256::new();
    from_seed.update(b"karst-netmap-cache-key-v1");
    from_seed.update([0x42; IDENTITY_SEED_LEN]);
    let from_seed: [u8; 32] = from_seed.finalize().into();
    assert_eq!(identity.cache_key.0, from_seed);
}

#[test]
fn a_readable_identity_file_is_refused() {
    let file = KeyFile::Present { text: encode_hex(&[0x11; IDENTITY_SEED_LEN]), mode: 0o644 };
    assert!(matches!(
        Identity::load_or_create("readable.key", file),
        Err(Error::Permissions { .. })
    ));
}

#[test]
fn an_identity_file_of_the_wrong_shape_is_refused() {
    let file = KeyFile::Present { text: "aabb".to_owned(), mode: 0o600 };
    assert!(matches!(Identity::load_or_create("id.key", file), Err(Error::Key(_))));
    match Identity::load_or_create("id.key", KeyFile::Unreadable("denied".to_owned())) {
        Err(Error::Io { path, source }) => {
            assert_eq!(path, "id.key");
            assert_eq!(source, "denied");
        }
        _ => panic!("an unreadable key file was not reported"),
    }
}

#[test]
fn an_identity_is_a_function_of_the_seed() {
    assert_eq!(identity(0x07).public_key(), identity(0x07).public_key());
    assert_ne!(identity(0x07).public_key(), identity(0x08).public_key());
    assert_eq!(identity(0x07).public_key().len(), 1952);
}

#[test]
fn a_signature_is_accepted_in_its_own_context_only() {
    let id = identity(0x09);
    let key = id.public_key();
    let signature = id.sign(b"hello").expect("sign");
    assert_eq!(signature.len(), 3309);
    assert!(ServerVerifier.verify(&key, b"hello", &signature));
    assert!(!ServerVerifier.verify(&key, b"other", &signature));
    assert!(!ServerVerifier.verify(&identity(0x0a).public_key(), b"hello", &signature));
    assert!(!RelayVerifier.verify(&key, b"hello", &signature), "the contexts differ");
    assert!(!ServerVerifier.verify(&key, b"hello", &signature[1..]));

    let relayed = id.sign_for_relay(b"hello").expect("sign");
    assert!(RelayVerifier.verify(&key, b"hello", &relayed));
    assert!(!ServerVerifier.verify(&key, b"hello", &relayed));
}

#[test]
fn overwriting_a_readable_secret_repairs_its_permissions() {
    // The secret goes to a fresh sibling, which is then renamed into place: the
    // old file's mode is never inherited.
    let mut replacing = Replacing::write_secret_bytes(true);
    assert_eq!(replacing.step, Step::Create);
    let file = replacing.creation().expect("a fresh file");
    replacing.report(Ending::Done);
    assert_eq!(replacing.step, Step::Write);
    replacing.report(Ending::Done);
    assert_eq!(replacing.step, Step::Rename);
    assert_eq!(file.mode & 0o077, 0);
}

fn section(cache: Option<&str>) -> ControlSection {
    ControlSection {
        server: "http://127.0.0.1:1".to_owned(),
        server_kem_pin: encode_hex(&[0x01; 1184]),
        server_verify_pin: encode_hex(&[0x02; 1952]),
        identity_key_file: "id.key".to_owned(),
        setup_key: Some("setup".to_owned()),
        cache_file: cache.map(str::to_owned),
        relay_ca_file: None,
    }
}

fn new_client(section: &ControlSection) -> Result<Client, Error> {
    let keys = KeySeeds { kem: Bytes([0x21; 64]), dh: Bytes([0x22; 32]) };
    Client::new(section, Ok(identity(0x33)), section.cache_file.clone(), &keys)
}

fn client(cache: Option<&str>) -> Client {
    match new_client(&section(cache)) {
        Ok(client) => client,
        Err(e) => panic!("{}", e.to_text()),
    }
}

#[test]
fn a_client_presents_the_public_halves_of_its_keys() {
    let keys = KeySeeds { kem: Bytes([0x21; 64]), dh: Bytes([0x22; 32]) };
    let (kem, dh) = keys.public_keys();
    let client = client(None);
    assert_eq!(client.kem_public, kem);
    assert_eq!(client.dh_public, dh.0.to_vec());
}

#[test]
fn a_readable_cache_is_refused() {
    let mut client = client(Some("netmap.bin"));
    let opened = Opened::Sealed("not important: permissions fail first".to_owned());
    assert!(matches!(
        client.load_cache(CacheFile::Present { mode: 0o640 }, opened),
        Some(Err(Error::Permissions { .. }))
    ));
}

#[test]
fn a_pin_of_the_wrong_length_is_refused_at_startup() {
    let mut short = section(None);
    short.server_verify_pin = encode_hex(&[0x02; 32]);
    match new_client(&short) {
        Err(Error::Key(m)) => assert!(m.contains("server_verify_pin"), "{m}"),
        _ => panic!("expected a key error"),
    }

    let mut short = section(None);
    short.server_kem_pin = encode_hex(&[0x01; 32]);
    match new_client(&short) {
        Err(Error::Key(m)) => assert!(m.contains("server_kem_pin"), "{m}"),
        _ => panic!("expected a key error"),
    }
}

#[test]
fn a_cache_that_opens_gives_back_its_netmap() {
    let mut client = client(Some("netmap.bin"));
    assert_eq!(client.save_cache(), Some("netmap.bin"));
    assert!(client.registering());
    let opened = Opened::Held { node_id: b"self".to_vec(), peers: 1 };
    match client.load_cache(CacheFile::Present { mode: 0o600 }, opened) {
        Some(Ok(outcome)) => assert_eq!(outcome, Outcome::Replaced { peers: 1 }),
        _ => panic!("the cache did not open"),
    }
    assert!(!client.registering(), "the cached netmap names this node");
    assert_eq!(client.node_id, b"self".to_vec());
}

#[test]
fn a_cache_from_another_node_does_not_open() {
    // Its key belongs to another identity.
    assert_ne!(identity(0x33).cache_key.0, identity(0x34).cache_key.0);
    let mut foreign = client(Some("nm.bin"));
    let opened = Opened::Sealed("authentication failed".to_owned());
    match foreign.load_cache(CacheFile::Present { mode: 0o600 }, opened) {
        Some(Err(Error::Cache(_))) => {}
        _ => panic!("a foreign cache opened"),
    }
}

#[test]
fn a_missing_cache_is_not_an_error() {
    let mut client = client(Some("absent.bin"));
    assert!(
        client.load_cache(CacheFile::Missing, Opened::Sealed(String::new())).is_none(),
        "a cold start is not a failure"
    );
}

#[test]
fn no_cache_file_means_nothing_is_written() {
    let mut client = client(None);
    assert_eq!(client.save_cache(), None);
    assert!(client.load_cache(CacheFile::Missing, Opened::Sealed(String::new())).is_none());
}

#[test]
fn request_kinds_are_pinned() {
    assert_eq!(KIND_LOGIN, 1);
    assert_eq!(KIND_NETMAP, 2);
    assert_eq!(Client::request(KIND_NETMAP, &[7, 8]), vec![2, 7, 8]);
}

#[test]
fn a_login_must_assign_the_expected_handle() {
    let mut client = client(None);
    let request = client.login_request("host");
    assert_eq!(request.setup_key, "setup");
    assert_eq!(request.hostname, "host");
    assert!(client.login(Vec::new(), "abc").is_err(), "no handle at all");
    assert!(client.registering());
    assert!(client.login(b"xyz".to_vec(), "abc").is_err(), "another node's handle");
    assert!(client.login(b"abc".to_vec(), "abc").is_ok());
    assert!(!client.registering());
}

#[test]
fn only_a_version_mismatch_asks_for_everything_again() {
    let (result, again) = Client::fetch(Ok(Outcome::Unchanged));
    assert!(result.is_ok() && !again);
    let (result, again) = Client::fetch(Err(ApplyError::VersionMismatch("v".to_owned())));
    assert!(matches!(result, Err(Error::Netmap(_))) && again);
    let (result, again) = Client::fetch(Err(ApplyError::Other("v".to_owned())));
    assert!(matches!(result, Err(Error::Netmap(_))) && !again);
}

#[test]
fn the_host_name_is_trimmed_and_has_a_fallback() {
    assert_eq!(hostname(Some(" atlas\n")), "atlas");
    assert_eq!(hostname(None), "karst-node");
}

//! Enrollment: invitations, bundles, and the order of its steps.

use base64ct::{Base64UrlUnpadded, Encoding};
use karstd::enrollment::{
    create_data_key, decode_invitation, enroll, enroll_invitation, hex, may_read, state_path,
    validate_bundle, Bundle, BundleFile, Directory, Enrollment, Event, Stage, INVITATION_PREFIX,
    LOCK_FILE, MAX_INVITATION_BYTES, STAGED_FILE,
};
use karstd::ipc::Platform;
use karstd::secrets::{Ending, PublishStep, Publishing};
use serde_json::Value;

fn text_of(value: &Value, name: &str) -> Option<String> {
    Some(value.get(name)?.as_str()?.to_owned())
}

/// What the payload of an invitation says, if it is a bundle.
fn parsed(payload: &[u8]) -> Option<Bundle> {
    let value: Value = serde_json::from_slice(payload).ok()?;
    let version = value.get("control_minimum_version").and_then(Value::as_u64).unwrap_or(1);
    Some(Bundle {
        server: text_of(&value, "server")?,
        server_kem_pin: text_of(&value, "server_kem_pin")?,
        server_verify_pin: text_of(&value, "server_verify_pin")?,
        setup_key: text_of(&value, "setup_key")?,
        control_minimum_version: u32::try_from(version).ok()?,
    })
}

/// Whether both pins have their lengths.
fn pins(bundle: &Bundle) -> Result<(), String> {
    let lengths = (hex(&bundle.server_kem_pin), hex(&bundle.server_verify_pin));
    match lengths {
        (Ok(kem), Ok(verify)) if kem.len() == 1184 && verify.len() == 2592 => Ok(()),
        _ => Err("invalid server pin".to_owned()),
    }
}

fn parse_invitation(invitation: &str) -> Result<Enrollment, String> {
    let bundle = match decode_invitation(invitation) {
        Ok(payload) => parsed(&payload),
        Err(_) => None,
    };
    let pinned = match &bundle {
        Some(bundle) => pins(bundle),
        None => Ok(()),
    };
    enroll_invitation(invitation, bundle, Ok(()), pinned)
}

fn refusal(result: Result<Enrollment, String>) -> String {
    match result {
        Ok(_) => panic!("the invitation was accepted"),
        Err(e) => e,
    }
}

fn encode(raw: &str) -> String {
    format!("{INVITATION_PREFIX}{}", Base64UrlUnpadded::encode_string(raw.as_bytes()))
}

#[test]
fn invitation_validation_never_echoes_credentials() {
    let secret = "SECRET-DO-NOT-ECHO";
    for raw in [
        format!("{{\"setup_key\":\"{secret}\" broken"),
        format!("{{\"setup_key\":\"{secret}\",\"server\":\"http://localhost\"}}"),
    ] {
        let error = refusal(parse_invitation(&encode(&raw)));
        assert!(!error.contains(secret));
    }
    assert!(parse_invitation("karst-invite-v2:e30").is_err());
    assert!(parse_invitation(&"x".repeat(MAX_INVITATION_BYTES + 1)).is_err());
}

fn payload(kem_pin: &str) -> String {
    format!(
        "{{\"server\":\"https://control.example.test\",\"server_kem_pin\":\"{kem_pin}\",\
         \"server_verify_pin\":\"{}\",\"setup_key\":\"fixture\",\"control_minimum_version\":1}}",
        "02".repeat(2592)
    )
}

#[test]
fn invitation_preserves_trust_and_requires_valid_pins() {
    let invitation = encode(&payload(&"01".repeat(1184)));
    let accepted = match parse_invitation(&format!("  {invitation}\n")) {
        Ok(enrollment) => enrollment,
        Err(e) => panic!("{e}"),
    };
    assert_eq!(accepted.bundle.server, "https://control.example.test");
    assert_eq!(accepted.bundle.setup_key, "fixture");
    assert!(parse_invitation(&encode(&payload("01"))).is_err());
}

#[test]
fn a_payload_is_decoded_and_not_handed_back() {
    assert_eq!(decode_invitation("karst-invite-v1:e30").expect("payload"), b"{}".to_vec());
    assert!(decode_invitation("karst-invite-v1:e30=").is_err(), "padding");
    assert!(decode_invitation("karst-invite-v1:e3+").is_err(), "another alphabet");
    assert!(decode_invitation("e30").is_err(), "no prefix");
}

#[test]
fn publishing_never_overwrites_a_file_or_follows_a_symlink() {
    let mut publishing = Publishing::publish_config();
    let file = publishing.creation().expect("the file is created first");
    assert_eq!(file.mode, 0o600);
    assert!(file.exclusive);
    assert_eq!(publishing.step, PublishStep::Create);
    publishing.report(Ending::Done);
    assert_eq!(publishing.step, PublishStep::Link);
    publishing.report(Ending::Done);
    assert_eq!(publishing.step, PublishStep::Discard);
    publishing.report(Ending::Done);
    assert_eq!(publishing.step, PublishStep::Settle);
    publishing.report(Ending::Done);
    assert_eq!(publishing.step, PublishStep::Finished);

    // A name that is taken, by a file or by a link, is left alone.
    let mut publishing = Publishing::publish_config();
    publishing.report(Ending::Done);
    publishing.report(Ending::Exists);
    assert_eq!(publishing.step, PublishStep::Discard);
    publishing.report(Ending::Done);
    assert_eq!(publishing.step, PublishStep::Failed);
    assert!(publishing.error.is_some());
}

fn bundle() -> Bundle {
    Bundle {
        server: "https://control.example.test".to_owned(),
        server_kem_pin: "01".repeat(1184),
        server_verify_pin: "02".repeat(2592),
        setup_key: "fixture".to_owned(),
        control_minimum_version: 1,
    }
}

fn file(regular: bool, mode: u32, text: &str) -> BundleFile {
    BundleFile::Found { regular, mode, text: Ok(text.to_owned()) }
}

#[test]
fn malformed_bundle_errors_do_not_disclose_credentials() {
    let text = "setup_key = \"SECRET\" broken";
    let error = refusal(enroll(&file(true, 0o600, text), None, Ok(()), Ok(())));
    assert!(!error.contains("SECRET"));
}

#[test]
fn a_bundle_file_must_be_private_and_regular() {
    assert!(enroll(&file(true, 0o100600, ""), Some(bundle()), Ok(()), Ok(())).is_ok());
    assert!(enroll(&file(true, 0o100644, ""), Some(bundle()), Ok(()), Ok(())).is_err());
    assert!(enroll(&file(false, 0o600, ""), Some(bundle()), Ok(()), Ok(())).is_err());
    assert!(may_read(true, 0o100600) && !may_read(true, 0o640) && !may_read(false, 0o600));
    let gone = BundleFile::Unreadable("gone".to_owned());
    assert_eq!(refusal(enroll(&gone, Some(bundle()), Ok(()), Ok(()))), "gone");
}

#[test]
fn a_bundle_needs_a_server_a_key_and_good_pins() {
    assert!(validate_bundle(&bundle(), Ok(()), Ok(())).is_ok());
    let mut plain = bundle();
    plain.server = "ftp://control.example.test".to_owned();
    assert!(validate_bundle(&plain, Ok(()), Ok(())).is_err());
    let mut keyless = bundle();
    keyless.setup_key = String::new();
    assert!(validate_bundle(&keyless, Ok(()), Ok(())).is_err());
    assert!(validate_bundle(&bundle(), Err("suite".to_owned()), Ok(())).is_err());
    assert!(validate_bundle(&bundle(), Ok(()), Err("pins".to_owned())).is_err());
}

#[test]
fn a_pin_is_read_as_pairs_of_hex_digits() {
    assert_eq!(hex("0aFf").expect("pin"), vec![0x0a, 0xff]);
    assert!(hex("0").is_err());
    assert!(hex("zz").is_err());
}

fn ready() -> Enrollment {
    let mut enrollment = Enrollment::enroll_bundle(bundle());
    enrollment.report(Event::Paths { absolute: true, exists: false, parent: true });
    assert_eq!(enrollment.stage, Stage::StateDirectory);
    enrollment
}

#[test]
fn a_missing_state_directory_is_created() {
    let mut enrollment = ready();
    enrollment.report(Event::Looked(Directory::Missing));
    assert_eq!(enrollment.stage, Stage::CreateState);
    enrollment.report(Event::Done);
    assert_eq!(enrollment.stage, Stage::ConfigDirectory);
}

#[test]
fn a_directory_that_others_can_write_is_refused() {
    let mut enrollment = ready();
    enrollment.report(Event::Looked(Directory::Real { mode: 0o777 }));
    assert_eq!(enrollment.stage, Stage::Failed);
    assert!(enrollment.error.is_some());
}

#[test]
fn an_existing_configuration_is_refused_before_anything_is_touched() {
    let mut enrollment = Enrollment::enroll_bundle(bundle());
    enrollment.report(Event::Paths { absolute: true, exists: true, parent: true });
    assert_eq!(enrollment.stage, Stage::Failed);
    let mut relative = Enrollment::enroll_bundle(bundle());
    relative.report(Event::Paths { absolute: false, exists: false, parent: true });
    assert_eq!(relative.stage, Stage::Failed);
}

#[test]
fn a_data_key_is_made_only_where_there_is_none() {
    assert_eq!(create_data_key(true), Ok(None));
    let first = create_data_key(false).expect("randomness").expect("a key");
    let second = create_data_key(false).expect("randomness").expect("a key");
    assert_eq!(first.len(), 192);
    assert!(first.chars().all(|c| c.is_ascii_hexdigit()));
    assert_ne!(first, second);
}

#[test]
fn the_configuration_is_a_document_that_reads_back() {
    let enrollment = Enrollment::enroll_bundle(bundle());
    let text = enrollment
        .configuration("/k", Platform::Linux)
        .expect("a document");
    let table: toml::Table = toml::from_str(&text).expect("TOML");
    let control = table.get("control").and_then(toml::Value::as_table).expect("control");
    assert_eq!(
        control.get("server").and_then(toml::Value::as_str),
        Some("https://control.example.test")
    );
    assert_eq!(
        control.get("identity_key_file").and_then(toml::Value::as_str),
        Some("/k/identity.key")
    );
    assert_eq!(
        control.get("cache_file").and_then(toml::Value::as_str),
        Some("/k/netmap.cache")
    );
    let node = table.get("node").and_then(toml::Value::as_table).expect("node");
    assert_eq!(
        node.get("private_key_file").and_then(toml::Value::as_str),
        Some("/k/node.key")
    );
    assert!(control.get("setup_key").is_none(), "the setup key is used once");
}

#[test]
fn the_files_of_an_enrollment_are_in_its_state_directory() {
    assert_eq!(state_path("/var/lib/karst", LOCK_FILE), "/var/lib/karst/enrollment.lock");
    assert_eq!(state_path("/var/lib/karst/", STAGED_FILE), "/var/lib/karst/enrollment.toml");
    let section = Enrollment::enroll_bundle(bundle()).section("/s");
    assert_eq!(section.identity_key_file, "/s/identity.key");
    assert_eq!(section.cache_file.as_deref(), Some("/s/netmap.cache"));
    assert_eq!(section.setup_key.as_deref(), Some("fixture"));
}

#[test]
fn what_an_enrollment_creates_is_its_owners_alone() {
    let mut enrollment = ready();
    assert_eq!(enrollment.creation_mode(), None);
    enrollment.report(Event::Looked(Directory::Missing));
    assert_eq!(enrollment.creation_mode(), Some(0o700));
    enrollment.report(Event::Done);
    enrollment.report(Event::Looked(Directory::Missing));
    assert_eq!(enrollment.creation_mode(), Some(0o700));
    enrollment.report(Event::Done);
    assert_eq!(enrollment.stage, Stage::Lock);
    assert_eq!(enrollment.creation_mode(), Some(0o600));
}

//! The command line.

use karstd::cli::{describe, dispatch, parse_args, Invocation, DEFAULT_CONFIG};
use karstd::control::{Origin, Source};
use karstd::ipc::Platform;

fn args(words: &[&str]) -> Vec<String> {
    words.iter().map(|w| (*w).to_owned()).collect()
}

#[test]
fn the_first_word_decides() {
    assert_eq!(dispatch(&args(&[])), Invocation::Run);
    assert_eq!(dispatch(&args(&["-c", "x"])), Invocation::Run);
    assert_eq!(dispatch(&args(&["--help"])), Invocation::Help);
    assert_eq!(dispatch(&args(&["genkey"])), Invocation::GenKey);
    assert_eq!(dispatch(&args(&["check", "-c", "x"])), Invocation::Check);
    assert_eq!(dispatch(&args(&["pubkey"])), Invocation::PubKey);
    assert_eq!(dispatch(&args(&["frobnicate"])), Invocation::Unknown);
}

#[test]
fn options_name_the_configuration_and_the_socket() {
    let (config, socket) = parse_args(&args(&[]), 0, Platform::Linux).expect("defaults");
    assert_eq!(config, DEFAULT_CONFIG);
    assert_eq!(socket, "/run/karst/karstd.sock");
    let given = args(&["check", "-c", "a", "--socket", "b", "--config", "c"]);
    let (config, socket) = parse_args(&given, 1, Platform::Linux).expect("options");
    assert_eq!((config.as_str(), socket.as_str()), ("c", "b"));
    assert_eq!(
        parse_args(&args(&["--config"]), 0, Platform::Linux),
        Err("--config needs a path".to_owned())
    );
    assert_eq!(
        parse_args(&args(&["--\"x"]), 0, Platform::Linux),
        Err("unknown option \"--\\\"x\"".to_owned())
    );
}

#[test]
fn the_source_of_the_peers_is_named() {
    assert_eq!(describe(Source::Roster), "karstd: peers from the local roster");
    assert_eq!(
        describe(Source::Server { origin: Origin::Server, peers: 12 }),
        "karstd: 12 peer(s) from the coordination server"
    );
    assert_eq!(
        describe(Source::Server { origin: Origin::Cache, peers: 0 }),
        "karstd: 0 peer(s) from the cached netmap (the server was unreachable)"
    );
}

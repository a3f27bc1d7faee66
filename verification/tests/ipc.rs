//! The local control socket.

use karstd::ipc::{
    bind, bind_unprivileged_status, default_status_socket, request, serve, socket_path, stale,
    unprivileged, Command, Platform,
};

#[test]
fn commands_round_trip_through_their_wire_form() {
    for c in [
        Command::Status,
        Command::Down,
        Command::Version,
        Command::BugReport,
        Command::Metrics,
        Command::DnsStatus,
        Command::DnsQuery("atlas.aquifer.karst".to_owned()),
        Command::ExitList,
        Command::ExitUse("exit-eu".to_owned()),
        Command::ExitDisable,
    ] {
        assert_eq!(Command::parse(&c.as_str()), Some(c));
    }
    assert_eq!(Command::parse("  status\n"), Some(Command::Status));
    assert_eq!(Command::parse("statu"), None);
    assert_eq!(Command::parse(""), None);
    assert_eq!(Command::parse("dns-query two names"), None);
    assert_eq!(Command::parse("exit-use two routes"), None);
    assert_eq!(Command::parse("status; rm -rf /"), None);
}

#[test]
fn a_request_reaches_the_daemon_and_the_reply_comes_back() {
    let line = request(&Command::Status);
    assert_eq!(line, "status\n");
    let command = serve(&line).expect("a known command");
    assert_eq!(
        format!("command = \"{}\"\n", command.as_str()),
        "command = \"status\"\n"
    );
    assert_eq!(command, Command::Status);
}

#[test]
fn the_socket_is_not_readable_by_others() {
    let access = bind();
    assert_eq!(
        access.socket & 0o077,
        0,
        "socket mode {:04o} exposes the control interface",
        access.socket
    );
    assert_eq!(access.directory & 0o077, 0);
}

#[test]
fn the_unprivileged_status_socket_is_reachable_by_any_local_user() {
    let access = bind_unprivileged_status();
    assert_eq!(access.directory & 0o777, 0o755);
    assert_eq!(access.socket & 0o777, 0o666);
}

#[test]
fn a_stale_socket_is_replaced_rather_than_fatal() {
    assert!(stale(true, false), "a stale socket must not block startup");
    assert!(!stale(false, false));
}

#[test]
fn a_live_socket_is_not_stolen() {
    assert!(!stale(true, true), "binding over a live control socket must fail");
}

#[test]
fn an_unknown_command_gets_an_answer_not_silence() {
    let answer = serve("nonsense\n").expect_err("an unknown command");
    assert!(answer.contains("error"), "got {answer:?}");
}

#[test]
fn an_explicit_socket_wins_over_the_default() {
    assert_eq!(socket_path(Some("/tmp/k.sock"), Platform::Linux), "/tmp/k.sock");
    assert_eq!(socket_path(None, Platform::Linux), "/run/karst/karstd.sock");
    assert_eq!(socket_path(None, Platform::MacOs), "/var/run/karst/karstd.sock");
    assert_eq!(default_status_socket(Platform::Linux), "/run/karst-status/karstd.sock");
}

#[test]
fn the_status_socket_serves_the_report_alone() {
    assert!(unprivileged(&Command::Status));
    for line in ["down", "version", "bugreport", "metrics", "dns-status", "exit-list", "exit-use a"] {
        let command = Command::parse(line).expect("a command");
        assert!(!unprivileged(&command), "{line}");
    }
}

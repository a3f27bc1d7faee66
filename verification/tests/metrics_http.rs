//! The metrics endpoint.

use karstd::metrics_http::{ends_headers, metrics, not_found, wants_metrics};

#[test]
fn the_http_listener_and_the_ipc_verb_return_the_same_bytes() {
    let reply_body =
        "# HELP karst_tx_packets test\n# TYPE karst_tx_packets counter\nkarst_tx_packets 1\n";
    assert!(wants_metrics("GET /metrics HTTP/1.1\r\n"));
    assert!(!ends_headers("Host: x\r\n"));
    assert!(ends_headers("\r\n"));
    let got = metrics(Ok(reply_body));
    assert!(got.contains("200 OK"), "got {got:?}");
    assert!(
        got.ends_with(reply_body),
        "HTTP body does not match the IPC reply byte for byte: {got:?}"
    );
    assert!(got.contains(&format!("Content-Length: {}\r\n", reply_body.len())));
}

#[test]
fn an_unknown_path_gets_a_404() {
    assert!(!wants_metrics("GET /nonsense HTTP/1.1\r\n"));
    assert!(!wants_metrics("POST /metrics HTTP/1.1\r\n"));
    assert!(!wants_metrics(""));
    let got = not_found();
    assert!(got.starts_with("HTTP/1.1 404"), "got {got:?}");
}

#[test]
fn a_length_counts_bytes_and_not_characters() {
    let got = metrics(Ok("\u{e9}\n"));
    assert!(got.contains("Content-Length: 3\r\n"), "got {got:?}");
}

#[test]
fn an_unreachable_daemon_gets_a_502() {
    let got = metrics(Err("no such file"));
    assert!(got.starts_with("HTTP/1.1 502 Bad Gateway\r\n"), "got {got:?}");
    assert!(got.ends_with("karstd: could not reach the control socket: no such file\n"));
}

//! Exit routing: the order of its stages, and what a failure leaves behind.

use karstd::addr::IpAddr;
use karstd::exit_policy::{Family, Manager, Phase, Stage, State};

/// A host whose commands are recorded, and of which one may fail.
#[derive(Debug, Default)]
struct Host {
    commands: Vec<Vec<String>>,
    fail_at: Option<usize>,
}

impl Host {
    fn run(&mut self, state: &mut State) -> bool {
        let mut succeeded = true;
        while let Some(args) = state.next() {
            self.commands.push(args);
            let ok = self.fail_at != Some(self.commands.len());
            succeeded = succeeded && ok;
            state.report(if ok { Ok(()) } else { Err("synthetic ip failure".to_owned()) });
        }
        succeeded
    }
}

fn documentation_v6() -> IpAddr {
    IpAddr::V6(0x2001_0db8_0000_0000_0000_0000_0000_0010)
}

#[test]
fn activation_is_last_and_cleanup_removes_it_first() {
    let escapes = vec![IpAddr::v4(192, 0, 2, 10), IpAddr::v4(198, 51, 100, 20)];
    let mut host = Host::default();
    let mut state = State::new();
    state.activate("karst0", Family::V4, &escapes).unwrap();
    assert!(host.run(&mut state));
    let activation = host.commands.last().unwrap().join(" ");
    assert!(activation.contains("priority 260 lookup 51888"));

    let before = host.commands.len();
    state.clear();
    assert!(host.run(&mut state));
    let first_cleanup = host.commands[before].join(" ");
    assert!(first_cleanup.contains("del priority 260"));
}

#[test]
fn a_partial_failure_rolls_every_applied_stage_back() {
    let mut host = Host { fail_at: Some(6), ..Host::default() };
    let mut state = State::new();
    state.activate("karst0", Family::V4, &vec![IpAddr::v4(192, 0, 2, 10)]).unwrap();
    assert!(!host.run(&mut state));
    assert_eq!(state.error.as_deref(), Some("synthetic ip failure"));
    assert!(state.undo.is_empty());
    assert_eq!(state.active, None);
    assert!(host
        .commands
        .iter()
        .any(|command| command.get(2).is_some_and(|v| v == "del")));
}

#[test]
fn only_the_selected_family_gets_escape_rules() {
    let escapes = vec![IpAddr::v4(192, 0, 2, 10), documentation_v6()];
    let mut host = Host::default();
    let mut state = State::new();
    state.activate("karst0", Family::V6, &escapes).unwrap();
    assert!(host.run(&mut state));
    let all = host.commands.iter().flatten().cloned().collect::<Vec<_>>().join(" ");
    assert!(all.contains("2001:db8::10/128"));
    assert!(!all.contains("192.0.2.10/32"));
}

#[test]
fn every_command_of_an_activation() {
    let mut host = Host::default();
    let mut state = State::new();
    state.activate("karst0", Family::V4, &vec![IpAddr::v4(192, 0, 2, 10)]).unwrap();
    assert!(host.run(&mut state));
    let lines: Vec<String> = host.commands.iter().map(|c| c.join(" ")).collect();
    assert_eq!(
        lines,
        vec![
            "-Version",
            "-4 route del default dev karst0 table 51888 proto 186",
            "-4 route add default dev karst0 table 51888 proto 186",
            "-4 rule add priority 100 to 192.0.2.10/32 lookup main protocol 186",
            "-4 rule add priority 250 lookup main suppress_prefixlength 0 protocol 186",
            "-4 rule add priority 260 lookup 51888 protocol 186",
        ]
    );
    assert_eq!(state.active, Some(Family::V4));
    assert_eq!(state.phase, Phase::Idle);
    assert_eq!(state.undo.first(), Some(&Stage::DefaultRoute));
}

#[test]
fn a_failure_at_any_stage_leaves_nothing_installed() {
    for at in 3..=6 {
        let mut host = Host { fail_at: Some(at), ..Host::default() };
        let mut state = State::new();
        state.activate("karst0", Family::V4, &vec![IpAddr::v4(192, 0, 2, 10)]).unwrap();
        assert!(!host.run(&mut state));
        assert!(state.undo.is_empty());
        assert_eq!(state.active, None);
        assert_eq!(
            host.commands.len(),
            at + (at - 3),
            "every stage but the one that failed is taken down"
        );
        assert!(host.commands[at..].iter().all(|c| c[2] == "del"));
    }
}

#[test]
fn a_failed_probe_installs_nothing_and_a_failed_sweep_does_not_matter() {
    let mut host = Host { fail_at: Some(1), ..Host::default() };
    let mut state = State::new();
    state.activate("karst0", Family::V4, &vec![]).unwrap();
    assert!(!host.run(&mut state));
    assert_eq!(host.commands, vec![vec!["-Version".to_owned()]]);
    assert_eq!(state.active, None);

    let mut host = Host { fail_at: Some(2), ..Host::default() };
    state.activate("karst0", Family::V4, &vec![]).unwrap();
    host.run(&mut state);
    assert_eq!(state.active, Some(Family::V4));
    assert_eq!(state.error, None, "the sweep's failure is no failure");
}

#[test]
fn another_interface_moves_the_default_route() {
    let exit = IpAddr::v4(192, 0, 2, 1);
    let escapes = vec![IpAddr::v4(192, 0, 2, 10)];
    let mut host = Host::default();
    let mut manager = Manager::default();
    manager.activate("karst0", exit, &escapes).unwrap();
    assert!(host.run(&mut manager.state));

    manager.activate("karst0", exit, &escapes).unwrap();
    assert!(manager.state.next().is_none(), "nothing changed");

    let before = host.commands.len();
    manager.activate("karst1", exit, &escapes).unwrap();
    assert!(!manager.active());
    assert!(host.run(&mut manager.state));
    assert!(manager.active());
    let again: Vec<String> = host.commands[before..].iter().map(|c| c.join(" ")).collect();
    let removed = again
        .iter()
        .position(|c| c == "-4 route del default dev karst0 table 51888 proto 186")
        .expect("the old default route is removed");
    let added = again
        .iter()
        .position(|c| c == "-4 route add default dev karst1 table 51888 proto 186")
        .expect("the new default route is added");
    assert!(removed < added);
    assert!(!again.iter().any(|c| c.contains("route add default dev karst0")));
}

#[test]
fn more_escapes_than_priorities_are_refused() {
    let escapes: Vec<IpAddr> = (0..200u8).map(|n| IpAddr::v4(192, 0, 2, n)).collect();
    let mut state = State::new();
    let refusal = state.activate("karst0", Family::V4, &escapes).expect_err("too many");
    assert_eq!(refusal.to_text(), "200 underlay escapes exceed the 150 rule limit");
    assert!(state.next().is_none());
}

#[test]
fn the_manager_chooses_the_family_of_the_exit() {
    let mut host = Host::default();
    let mut manager = Manager::default();
    assert!(!manager.active());
    manager.activate("karst0", documentation_v6(), &vec![]).unwrap();
    assert!(host.run(&mut manager.state));
    assert!(manager.active());
    assert!(host.commands[1..].iter().all(|c| c[0] == "-6"));
    manager.disable();
    assert!(host.run(&mut manager.state));
    assert!(!manager.active());
}

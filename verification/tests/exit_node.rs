//! The operator's choice of exit route.

use karstd::exit_node::{Selection, SelectionError};

fn load(contents: Option<&str>) -> Selection {
    match Selection::load(contents) {
        Ok(selection) => selection,
        Err(e) => panic!("{}", e.to_text()),
    }
}

#[test]
fn selection_survives_restart_and_disable() {
    let mut selection = load(None);
    assert_eq!(selection.active(), None);

    let file = match selection.select("exit-eu", true, 77) {
        Ok(file) => file,
        Err(e) => panic!("{}", e.to_text()),
    };
    assert_eq!((file.creation.mode, file.creation.exclusive), (0o600, true));
    assert_eq!(file.directory_mode, 0o700);
    selection.written("exit-eu", true);
    assert_eq!(load(Some(&file.contents)).active(), Some("exit-eu"));

    selection.disable(true);
    assert_eq!(selection.active(), None);
    assert_eq!(load(None).active(), None);
}

#[test]
fn malformed_state_fails_closed() {
    assert!(Selection::load(Some("two routes\n")).is_err());
}

#[test]
fn route_ids_are_bounded_and_free_of_white_space() {
    let selection = load(None);
    for id in ["", "a b", "a\tb", &"x".repeat(129)] {
        assert!(matches!(
            selection.select(id, true, 1),
            Err(SelectionError::InvalidRoute)
        ));
    }
    assert!(selection.select(&"x".repeat(128), true, 1).is_ok());
    assert!(matches!(
        selection.select("exit-eu", false, 1),
        Err(SelectionError::NoParent)
    ));
}

#[test]
fn a_failed_write_keeps_the_old_choice() {
    let mut selection = load(Some("exit-eu\n"));
    selection.written("exit-us", false);
    assert_eq!(selection.active(), Some("exit-eu"));
    selection.disable(false);
    assert_eq!(selection.active(), Some("exit-eu"));
}

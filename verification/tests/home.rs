//! Choosing a home relay.

use karstd::bytes::Bytes;
use karstd::engine::RelayId;
use karstd::home::{Selector, HYSTERESIS_SAMPLES};

fn id(n: u8) -> RelayId {
    Bytes([n; 32])
}

#[test]
fn the_first_selection_is_immediate() {
    let mut s = Selector::new();
    s.observe(id(1), 40);
    s.observe(id(2), 12);
    assert_eq!(s.select(), (Some(id(2)), true));
}

#[test]
fn a_faster_relay_must_win_for_several_rounds_before_it_is_taken() {
    let mut s = Selector::new();
    s.observe(id(1), 100);
    assert_eq!(s.select(), (Some(id(1)), true));

    for round in 1..HYSTERESIS_SAMPLES {
        s.observe(id(1), 100);
        s.observe(id(2), 10);
        assert_eq!(
            s.select(),
            (Some(id(1)), false),
            "switched after only {round} round(s)"
        );
    }
    s.observe(id(1), 100);
    s.observe(id(2), 10);
    assert_eq!(s.select(), (Some(id(2)), true), "never switched");
}

#[test]
fn one_good_round_does_not_carry_over() {
    let mut s = Selector::new();
    s.observe(id(1), 100);
    let _ = s.select();
    for _ in 0..10 {
        s.observe(id(1), 100);
        s.observe(id(2), 10);
        assert!(!s.select().1, "switched on an alternating pattern");
        s.observe(id(1), 100);
        s.observe(id(2), 200);
        assert!(!s.select().1);
    }
    assert_eq!(s.chosen(), Some(id(1)));
}

/// A win counts only together with the wins right before it, whoever else wins
/// in between.
#[test]
fn taking_turns_is_not_a_sustained_win() {
    let mut s = Selector::new();
    s.observe(id(1), 100);
    let _ = s.select();
    for round in 0..10u8 {
        s.observe(id(1), 100);
        s.observe(id(2 + round % 2), 10);
        assert!(!s.select().1, "switched to a relay that never won twice in a row");
    }
    assert_eq!(s.chosen(), Some(id(1)));
}

#[test]
fn a_margin_that_is_only_noise_never_wins() {
    let mut s = Selector::new();
    s.observe(id(1), 2);
    let _ = s.select();
    for _ in 0..20 {
        s.observe(id(1), 2);
        s.observe(id(2), 1);
        assert!(!s.select().1, "switched on sub-millisecond jitter");
    }
}

#[test]
fn the_margin_is_the_larger_of_absolute_and_proportional() {
    assert!(Selector::beats(10, 100), "80% faster");
    assert!(
        !Selector::beats(380, 400),
        "on a 400 ms path 20% is 80 ms, and that is the larger margin"
    );
    assert!(Selector::beats(300, 400), "100 ms clears the 80 ms margin");
    assert!(!Selector::beats(99, 100), "1 ms and 1% is neither");
    assert!(!Selector::beats(2, 3), "1 ms on a fast path is noise");
}

#[test]
fn a_silent_incumbent_keeps_its_place() {
    let mut s = Selector::new();
    s.observe(id(1), 50);
    let _ = s.select();
    for _ in 0..HYSTERESIS_SAMPLES + 2 {
        s.observe(id(2), 5); // the incumbent says nothing
        assert_eq!(s.select(), (Some(id(1)), false));
    }
}

#[test]
fn a_withdrawn_relay_is_released_even_if_it_was_the_choice() {
    let mut s = Selector::new();
    s.observe(id(1), 10);
    assert_eq!(s.select(), (Some(id(1)), true));
    s.retain(&[id(2)]);
    assert_eq!(s.chosen(), None);
    s.observe(id(2), 90);
    assert_eq!(s.select(), (Some(id(2)), true));
}

#[test]
fn ties_are_broken_the_same_way_every_time() {
    let mut a = Selector::new();
    let mut b = Selector::new();
    for s in [&mut a, &mut b] {
        s.observe(id(9), 30);
        s.observe(id(3), 30);
    }
    assert_eq!(a.select().0, b.select().0);
    assert_eq!(a.chosen(), Some(id(3)));
}

#[test]
fn a_later_measurement_replaces_an_earlier_one() {
    let mut s = Selector::default();
    s.observe(id(1), 10);
    s.observe(id(2), 20);
    s.observe(id(1), 30);
    assert_eq!(s.select(), (Some(id(2)), true));
}

#[test]
fn a_round_without_measurements_changes_nothing() {
    let mut s = Selector::new();
    assert_eq!(s.select(), (None, false));
    s.observe(id(1), 10);
    let _ = s.select();
    assert_eq!(s.select(), (Some(id(1)), false));
}

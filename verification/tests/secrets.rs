//! Replacing a file that holds a secret.

use karstd::bytes::Bytes;
use karstd::secrets::{
    enrollment_name, temporary_name, Ending, Replacing, Step, MAX_ATTEMPTS,
};

#[test]
fn temporary_names_hold_the_process_and_a_nonce() {
    assert_eq!(
        temporary_name("netmap.bin", 7, &Bytes([0xab; 12])),
        ".netmap.bin.karst-tmp-7-abababababababababababab"
    );
    assert_eq!(
        enrollment_name(&Bytes([1; 32])),
        format!(".karst-enrollment-{}.tmp", "01".repeat(32))
    );
}

#[test]
fn a_taken_temporary_name_is_tried_again_a_bounded_number_of_times() {
    let mut replacing = Replacing::write_secret_bytes(true);
    for _ in 0..MAX_ATTEMPTS {
        assert_eq!(replacing.step, Step::Create);
        replacing.report(Ending::Exists);
    }
    assert_eq!(replacing.step, Step::Failed);
}

#[test]
fn an_incomplete_file_is_removed_and_never_renamed() {
    let mut replacing = Replacing::write_secret_bytes(true);
    replacing.report(Ending::Done);
    replacing.report(Ending::Failed("disk full".to_owned()));
    assert_eq!(replacing.step, Step::Discard);
    replacing.report(Ending::Done);
    assert_eq!(replacing.step, Step::Failed);
    assert_eq!(replacing.error, "disk full");
}

#[test]
fn a_complete_file_is_renamed() {
    let mut replacing = Replacing::write_secret_bytes(true);
    for step in [Step::Create, Step::Write, Step::Rename] {
        assert_eq!(replacing.step, step);
        replacing.report(Ending::Done);
    }
    assert_eq!(replacing.step, Step::Finished);
    assert_eq!(Replacing::write_secret_bytes(false).step, Step::Failed);
}

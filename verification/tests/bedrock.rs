//! The replicated log: adoption, comparison, and the frames that carry heads.

use karstd::bedrock::{
    decode_head_claim, encode_head_claim, Coverage, Entry, Error, HeadComparison, Log, Mode,
    Outcome, Reason, State, Walked, CONTROL_BEDROCK_HEAD, CONTROL_MARKER,
};
use karstd::engine::ip_total_length;
use sha2::{Digest, Sha512};

/// The keys of a node, and the handle they go by.
struct NodeKeys {
    handle: String,
    kem: Vec<u8>,
    dh: Vec<u8>,
}

/// The chain hash of an entry: its content behind the hash of the one before it.
fn chain_hash(entry: &Entry, previous: &Vec<u8>) -> Vec<u8> {
    let mut h = Sha512::new();
    h.update(previous);
    h.update(entry.bytes.get(..3).unwrap_or_default());
    h.finalize().to_vec()
}

/// An entry with its seal: the first bytes of its chain hash.
fn sealed(seq: u64, content: [u8; 3], previous: &Vec<u8>) -> Entry {
    let mut entry = Entry { seq, bytes: content.to_vec() };
    let hash = chain_hash(&entry, previous);
    entry.bytes.extend_from_slice(&hash[..16]);
    entry
}

/// Verifies a chain from its first entry: sequence numbers, seals, and what the
/// entries cover.
fn verify(entries: &[Entry]) -> Result<State, String> {
    let mut previous: Vec<u8> = Vec::new();
    let mut covered = Vec::new();
    for (i, entry) in entries.iter().enumerate() {
        if entry.seq != i as u64 + 1 {
            return Err("sequence".to_owned());
        }
        let hash = chain_hash(entry, &previous);
        if entry.bytes.get(3..) != Some(&hash[..16]) {
            return Err("seal".to_owned());
        }
        previous = hash;
        if entry.bytes.first() == Some(&2) {
            let node = node();
            covered.push(Coverage {
                handle: node.handle,
                kem_public_key: node.kem,
                dh_public_key: node.dh,
            });
        }
    }
    Ok(State {
        head_seq: entries.len() as u64,
        head: previous,
        covered,
        revoked: Vec::new(),
    })
}

fn covers(state: &State, handle: &str, kem: &[u8], dh: &[u8]) -> bool {
    state
        .covered
        .iter()
        .any(|c| c.handle == handle && c.kem_public_key == kem && c.dh_public_key == dh)
}

fn node() -> NodeKeys {
    NodeKeys {
        handle: "alice".to_owned(),
        kem: vec![0x33; 1184],
        dh: vec![0x34; 32],
    }
}

/// A two-entry log: genesis, then a countersignature for one node.
fn sample() -> (Vec<Entry>, NodeKeys) {
    let genesis = sealed(1, [1, 0, 0], &Vec::new());
    let sign = sealed(2, [2, 0, 0], &chain_hash(&genesis, &Vec::new()));
    (vec![genesis, sign], node())
}

/// Extends a log the way a caller does: the whole chain is verified first.
fn extend(log: &mut Log, fetched: Vec<Entry>) -> Result<Outcome, Error> {
    let candidate = log.candidate(&fetched);
    let verdict = verify(&candidate);
    log.extend(fetched, verdict)
}

/// The chain hash of an entry, recomputed step by step.
fn hash_at(log: &Log, seq: u64) -> Option<Vec<u8>> {
    let mut walk = log.hash_at(seq)?;
    loop {
        let hash = chain_hash(log.due(&walk), &walk.before);
        match log.walked(walk, hash) {
            Walked::Found(hash) => return Some(hash),
            Walked::Going(next) => walk = next,
            Walked::Absent => return None,
        }
    }
}

fn compare_head(log: &Log, hash: &[u8], seq: u64) -> HeadComparison {
    log.compare_head(hash, seq, &hash_at(log, seq))
}

fn loaded() -> Log {
    let (entries, _) = sample();
    let mut log = Log::new();
    extend(&mut log, entries).unwrap();
    log
}

#[test]
fn an_empty_log_verifies_nothing_and_asks_from_zero() {
    let log = Log::new();
    assert_eq!(log.verified_seq(), 0);
    assert!(!log.is_present());
    assert!(log.state().is_none());
}

#[test]
fn entries_are_adopted_once_verified() {
    let (entries, node) = sample();
    let mut log = Log::new();
    assert_eq!(extend(&mut log, entries).unwrap(), Outcome::Advanced { to: 2 });
    assert_eq!(log.verified_seq(), 2);
    assert!(covers(log.state().expect("state"), &node.handle, &node.kem, &node.dh));
}

#[test]
fn a_fetch_can_be_incremental() {
    let (entries, _) = sample();
    let mut log = Log::new();
    extend(&mut log, vec![entries[0].clone()]).unwrap();
    assert_eq!(log.verified_seq(), 1);
    assert_eq!(
        extend(&mut log, vec![entries[1].clone()]).unwrap(),
        Outcome::Advanced { to: 2 }
    );
}

#[test]
fn a_broken_extension_leaves_the_previous_state_intact() {
    let (entries, node) = sample();
    let mut log = Log::new();
    extend(&mut log, vec![entries[0].clone()]).unwrap();

    let mut tampered = entries[1].clone();
    tampered.bytes[0] ^= 0x01;
    let err = extend(&mut log, vec![tampered]).expect_err("must be refused");
    assert!(matches!(err, Error::Broken(_)), "{}", err.to_text());
    assert_eq!(err.to_text(), "bedrock chain does not verify: seal");

    // Still holding genesis, still enforcing on it.
    assert_eq!(log.verified_seq(), 1);
    assert!(log.state().is_some());
    assert!(!covers(log.state().expect("state"), &node.handle, &node.kem, &node.dh));
}

#[test]
fn a_gap_is_refused() {
    let (entries, _) = sample();
    let mut log = Log::new();
    // Entry 2 without entry 1.
    let err = extend(&mut log, vec![entries[1].clone()]).expect_err("must be refused");
    assert!(
        matches!(err, Error::NotContiguous { expected: 1, got: 2 }),
        "{}",
        err.to_text()
    );
    assert_eq!(err.to_text(), "bedrock entries start at 2, expected 1");
}

#[test]
fn the_on_disk_copy_round_trips_and_is_re_verified() {
    let log = loaded();
    let stored = log.entries.clone();
    let verdict = verify(&stored);
    let restored = Log::decode(Ok(stored), verdict).expect("decode");
    assert_eq!(restored.verified_seq(), 2);
    assert_eq!(restored.head(), log.head());
}

#[test]
fn a_tampered_on_disk_copy_is_refused_rather_than_trusted() {
    let log = loaded();
    let mut stored = log.entries.clone();
    stored[1].bytes[1] ^= 0x01;
    let verdict = verify(&stored);
    assert!(Log::decode(Ok(stored), verdict).is_err(), "an edited cache was trusted");

    let malformed = Log::decode(Err("truncated".to_owned()), Err(String::new()));
    assert_eq!(malformed.expect_err("not a log").to_text(), "malformed bedrock log: truncated");
}

#[test]
fn head_comparison_needs_both_hash_and_sequence() {
    let log = loaded();
    let head = log.head();
    assert!(log.matches_head(&head, 2));
    assert!(!log.matches_head(&head, 3), "sequence is not compared");
    assert!(!log.matches_head(b"other", 2), "hash is not compared");
}

#[test]
fn nothing_fetched_is_up_to_date() {
    let mut log = loaded();
    assert_eq!(extend(&mut log, Vec::new()).unwrap(), Outcome::UpToDate);
    assert_eq!(log.verified_seq(), 2);
}

#[test]
fn modes_are_ordered_by_strictness() {
    assert!(Mode::Off < Mode::Advisory);
    assert!(Mode::Advisory < Mode::Enforcing);
    assert_eq!(Mode::default(), Mode::Off);
}

#[test]
fn the_server_may_raise_the_floor_and_never_lower_it() {
    for (floor, advertised, want) in [
        (Mode::Off, Mode::Off, Mode::Off),
        (Mode::Off, Mode::Advisory, Mode::Advisory),
        (Mode::Off, Mode::Enforcing, Mode::Enforcing),
        (Mode::Enforcing, Mode::Off, Mode::Enforcing),
        (Mode::Enforcing, Mode::Advisory, Mode::Enforcing),
        (Mode::Advisory, Mode::Off, Mode::Advisory),
        (Mode::Advisory, Mode::Enforcing, Mode::Enforcing),
    ] {
        assert_eq!(
            floor.max(advertised),
            want,
            "floor {floor:?} with advertised {advertised:?}"
        );
        assert_eq!(floor.raised(advertised), want);
    }
}

#[test]
fn an_unknown_wire_mode_does_not_escalate() {
    assert_eq!(Mode::from_wire(0), Mode::Off);
    assert_eq!(Mode::from_wire(1), Mode::Advisory);
    assert_eq!(Mode::from_wire(2), Mode::Enforcing);
    assert_eq!(Mode::from_wire(3), Mode::Off);
    assert_eq!(Mode::from_wire(-1), Mode::Off);
    assert_eq!(Mode::from_wire(9999), Mode::Off);
}

#[test]
fn modes_round_trip_through_configuration() {
    for m in [Mode::Off, Mode::Advisory, Mode::Enforcing] {
        assert_eq!(Mode::parse(m.as_str()), Some(m));
    }
    assert_eq!(Mode::parse("ENFORCING"), None);
    assert_eq!(Mode::parse(""), None);
    assert_eq!(Mode::parse("on"), None);
}

fn classify(log: &Log, handle: &str, kem: &[u8], dh: &[u8], t: i64) -> Option<Reason> {
    let covered = log.state().is_some_and(|s| covers(s, handle, kem, dh));
    log.classify(handle, kem, dh, t, covered)
}

#[test]
fn classification_names_why_a_peer_is_excluded() {
    let (entries, node) = sample();
    let mut log = Log::new();
    extend(&mut log, entries).unwrap();

    assert_eq!(classify(&log, &node.handle, &node.kem, &node.dh, 2000), None);
    assert_eq!(
        classify(&log, "nobody", &node.kem, &node.dh, 2000),
        Some(Reason::NotCountersigned)
    );

    // Right handle, keys the log does not cover: this must not be reported as a
    // mere gap.
    let other = vec![0xEE; 1184];
    assert_eq!(
        classify(&log, &node.handle, &other, &node.dh, 2000),
        Some(Reason::KeyMismatch)
    );
}

#[test]
fn a_revocation_and_a_window_are_told_apart() {
    let node = node();
    let mut log = loaded();
    let mut state = log.state.take().expect("state");
    state.revoked.push((node.handle.clone(), 1500));
    log.state = Some(state);
    assert_eq!(
        log.classify(&node.handle, &node.kem, &node.dh, 2000, false),
        Some(Reason::Revoked)
    );
    assert_eq!(
        log.classify(&node.handle, &node.kem, &node.dh, 1000, false),
        Some(Reason::OutsideWindow)
    );
    assert_eq!(Reason::Revoked.to_text(), "revoked");
    assert_eq!(Reason::OutsideWindow.to_text(), "outside its signed validity window");
    assert_eq!(Reason::NotCountersigned.to_text(), "not countersigned");
    assert_eq!(
        Reason::KeyMismatch.to_text(),
        "the netmap presents keys the log does not cover"
    );
}

#[test]
fn an_empty_log_covers_nothing() {
    let log = Log::new();
    assert_eq!(
        classify(&log, "anyone", &[0u8; 1184], &[0u8; 32], 2000),
        Some(Reason::NotCountersigned)
    );
}

#[test]
fn a_head_claim_round_trips() {
    let hash = vec![0xAB; 64];
    let (got, seq) = decode_head_claim(&encode_head_claim(&hash, 7)).expect("decode");
    assert_eq!(got, hash);
    assert_eq!(seq, 7);
}

#[test]
fn a_head_claim_has_its_layout() {
    let framed = encode_head_claim(&[0xAB; 64], 0x0102_0304_0506_0708);
    assert_eq!(&framed[..14], &[0, 1, 1, 2, 3, 4, 5, 6, 7, 8, 0, 0, 0, 64]);
    assert_eq!(&framed[14..], &[0xAB; 64]);
}

#[test]
fn trailing_padding_is_ignored() {
    let mut framed = encode_head_claim(&[0xCD; 64], 3);
    framed.resize(1280, 0);
    let (got, seq) = decode_head_claim(&framed).expect("decode");
    assert_eq!(got, vec![0xCD; 64]);
    assert_eq!(seq, 3);
}

#[test]
fn ip_packets_are_not_control_frames() {
    for first in [0x45u8, 0x60, 0x4F, 0x69] {
        let mut packet = vec![first];
        packet.extend_from_slice(&[0u8; 60]);
        assert!(
            decode_head_claim(&packet).is_none(),
            "an IP packet starting {first:#04x} decoded as a control frame"
        );
    }
}

#[test]
fn malformed_frames_are_refused_not_panicked_on() {
    for case in [
        vec![],
        vec![CONTROL_MARKER],
        vec![CONTROL_MARKER, 0x99],                 // unknown control type
        vec![CONTROL_MARKER, CONTROL_BEDROCK_HEAD], // truncated
        {
            // A length prefix that is not 64: refused rather than trusted.
            let mut v = vec![CONTROL_MARKER, CONTROL_BEDROCK_HEAD];
            v.extend_from_slice(&1u64.to_be_bytes());
            v.extend_from_slice(&u32::MAX.to_be_bytes());
            v
        },
    ] {
        assert!(decode_head_claim(&case).is_none(), "accepted {case:02x?}");
    }
}

#[test]
fn a_peer_holding_the_same_chain_agrees() {
    let log = loaded();
    let head = log.head();
    assert_eq!(
        compare_head(&log, &head, log.verified_seq()),
        HeadComparison::Agrees
    );
    // And at an earlier sequence they both hold.
    let at_one = hash_at(&log, 1).expect("genesis hash");
    assert_eq!(compare_head(&log, &at_one, 1), HeadComparison::Agrees);
}

#[test]
fn a_different_hash_at_a_common_sequence_is_divergence() {
    let log = loaded();
    assert_eq!(
        compare_head(&log, &[0xFF; 64], 1),
        HeadComparison::Diverges { seq: 1 }
    );
    assert_eq!(
        compare_head(&log, &[0xFF; 64], log.verified_seq()),
        HeadComparison::Diverges { seq: log.verified_seq() }
    );
}

#[test]
fn a_peer_further_along_is_not_divergence() {
    let log = loaded();
    assert_eq!(
        compare_head(&log, &[0xFF; 64], log.verified_seq() + 5),
        HeadComparison::PeerAhead {
            peer_seq: log.verified_seq() + 5,
            local_seq: log.verified_seq(),
        }
    );
}

#[test]
fn nothing_verified_means_nothing_to_compare() {
    let log = Log::new();
    assert_eq!(compare_head(&log, &[0u8; 64], 3), HeadComparison::Unknown);
    // And a peer with nothing is equally uninformative.
    assert_eq!(compare_head(&loaded(), &[], 0), HeadComparison::Unknown);
}

#[test]
fn hash_at_is_bounded_by_what_is_held() {
    let log = loaded();
    assert!(hash_at(&log, 0).is_none());
    assert!(hash_at(&log, 1).is_some());
    assert!(hash_at(&log, log.verified_seq()).is_some());
    assert!(hash_at(&log, log.verified_seq() + 1).is_none());
    assert!(hash_at(&log, u64::MAX).is_none());
}

#[test]
fn the_recomputed_head_matches_the_verified_one() {
    let log = loaded();
    assert_eq!(hash_at(&log, log.verified_seq()).expect("head"), log.head());
}

#[test]
fn a_hash_follows_the_entries() {
    let log = loaded();
    let mut edited = log.clone();
    edited.entries[0].bytes[1] = 9;
    assert_ne!(hash_at(&edited, 1), hash_at(&log, 1));
    assert_ne!(hash_at(&edited, 2), hash_at(&log, 2));
    let head = log.head();
    assert_eq!(
        compare_head(&edited, &head, 2),
        HeadComparison::Diverges { seq: 2 }
    );
    let mut gap = log.clone();
    gap.entries[1].seq = 3;
    assert_eq!(hash_at(&gap, 2), None, "no entry has that sequence");
    assert_eq!(log.compare_head(&head, 2, &None), HeadComparison::Unknown);
    assert_eq!(log.compare_head(&head, 2, &Some(head.clone())), HeadComparison::Agrees);
}

#[test]
fn a_control_frame_is_not_a_valid_ip_packet() {
    let framed = encode_head_claim(&[0x11; 64], 42);
    assert!(
        ip_total_length(&framed).is_none(),
        "a control frame parsed as IP, so the two paths can collide"
    );
    assert_eq!(framed.first(), Some(&CONTROL_MARKER));
}

#[test]
fn the_marker_is_not_a_legal_ip_version() {
    for len in [1usize, 20, 40, 64] {
        let candidate = vec![CONTROL_MARKER; len];
        assert!(ip_total_length(&candidate).is_none());
    }
}

//! The replay window: duplicates, reordering, and the age cutoff.

use oni_net::protection::{
    ChallengeFilter, ChallengeOrDisconnectFilter, Kind, NoFilter, NoProtection, Protection,
    ReplayProtection, REPLAY_PROTECTION_BUFFER_SIZE,
};
use oni_net::protocol::{CHALLENGE_PACKET_BYTES, MIN_PACKET_BYTES};

#[test]
fn replay_admits_each_sequence_once() {
    let mut rp = ReplayProtection::new(REPLAY_PROTECTION_BUFFER_SIZE);
    for seq in 0..100u64 {
        assert!(!rp.packet_already_received(seq), "fresh sequence admitted");
    }
    for seq in 0..100u64 {
        assert!(rp.packet_already_received(seq), "duplicate rejected");
    }
}

#[test]
fn replay_admits_reordered_within_window() {
    let mut rp = ReplayProtection::new(REPLAY_PROTECTION_BUFFER_SIZE);
    // deliberately out of order, all within one window of each other
    let stream: [u64; 6] = [5, 2, 9, 3, 8, 1];
    for s in &stream {
        assert!(!rp.packet_already_received(*s));
    }
    for s in &stream {
        assert!(rp.packet_already_received(*s));
    }
}

#[test]
fn replay_rejects_older_than_window() {
    let mut rp = ReplayProtection::new(REPLAY_PROTECTION_BUFFER_SIZE);
    let w = REPLAY_PROTECTION_BUFFER_SIZE as u64;
    assert!(!rp.packet_already_received(1000));
    assert_eq!(rp.most_recent_sequence(), 1000);
    // at the boundary: 1000 - w + w == most recent, so it is too old
    assert!(rp.packet_already_received(1000 - w));
    // one newer than the cutoff is still admitted
    assert!(!rp.packet_already_received(1000 - w + 1));
}

#[test]
fn replay_reset_forgets() {
    let mut rp = ReplayProtection::new(REPLAY_PROTECTION_BUFFER_SIZE);
    assert!(!rp.packet_already_received(7));
    assert!(rp.packet_already_received(7));
    rp.reset();
    assert_eq!(rp.most_recent_sequence(), 0);
    assert!(!rp.packet_already_received(7));
}

#[test]
fn filters_judge_kind_and_length() {
    let mut any = NoFilter;
    assert!(any.is_allowed(Kind::Request, 1, 0));
    assert!(!any.packet_already_received(0));

    let mut chal = ChallengeFilter;
    assert!(chal.is_allowed(Kind::Challenge, CHALLENGE_PACKET_BYTES, 0));
    assert!(!chal.is_allowed(Kind::Challenge, CHALLENGE_PACKET_BYTES - 1, 0));
    assert!(!chal.is_allowed(Kind::Payload, CHALLENGE_PACKET_BYTES, 0));

    let mut cd = ChallengeOrDisconnectFilter;
    assert!(cd.is_allowed(Kind::Challenge, CHALLENGE_PACKET_BYTES, 0));
    assert!(cd.is_allowed(Kind::Disconnect, MIN_PACKET_BYTES, 0));
    assert!(!cd.is_allowed(Kind::Disconnect, MIN_PACKET_BYTES + 1, 0));
    assert!(!cd.is_allowed(Kind::Payload, MIN_PACKET_BYTES, 0));

    let mut none = NoProtection;
    assert!(!none.packet_already_received(5));
    assert!(none.is_allowed(Kind::Payload, 20, 5));

    // through the replay filter, requests and challenges never pass
    let mut rp = ReplayProtection::new(REPLAY_PROTECTION_BUFFER_SIZE);
    assert!(!Protection::is_allowed(&mut rp, Kind::Request, 1200, 0));
    assert!(!Protection::is_allowed(&mut rp, Kind::Challenge, CHALLENGE_PACKET_BYTES, 0));
    assert!(Protection::is_allowed(&mut rp, Kind::Payload, 64, 3));
    assert!(!Protection::is_allowed(&mut rp, Kind::Payload, 64, 3));
    assert!(!Protection::is_allowed(&mut rp, Kind::Disconnect, MIN_PACKET_BYTES + 1, 4));
}

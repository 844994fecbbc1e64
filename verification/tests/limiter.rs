use axochat::message::{MessageConfig, RateLimiter};
use axochat::moderation::Moderation;

fn config() -> MessageConfig {
    MessageConfig { capacity: 3, regen_time_ms: 100, max_length: 64 }
}

#[test]
fn full_burst_is_admitted() {
    let mut l = RateLimiter::new(config(), 0);
    assert!(l.check(0));
    assert!(l.check(0));
    assert!(l.check(0));
}

#[test]
fn attempt_after_burst_within_regen_time_is_denied() {
    let mut l = RateLimiter::new(config(), 0);
    for _ in 0..3 {
        assert!(l.check(0));
    }
    assert!(!l.check(50));
}

#[test]
fn exactly_one_more_after_regen_time() {
    let mut l = RateLimiter::new(config(), 0);
    for _ in 0..3 {
        assert!(l.check(0));
    }
    assert!(!l.check(0));
    assert!(l.check(100));
    assert!(!l.check(100));
}

#[test]
fn credit_does_not_accrue_beyond_capacity() {
    let mut l = RateLimiter::new(config(), 0);
    for _ in 0..3 {
        assert!(l.check(0));
    }
    // A long silence refills at most `capacity` tokens.
    assert!(l.check(1_000_000));
    assert!(l.check(1_000_000));
    assert!(l.check(1_000_000));
    assert!(!l.check(1_000_000));
}

#[test]
fn clock_going_backwards_adds_no_credit() {
    let mut l = RateLimiter::new(config(), 1000);
    for _ in 0..3 {
        assert!(l.check(1000));
    }
    assert!(!l.check(500));
}

#[test]
fn ban_and_unban_round_trip() {
    let mut m = Moderation::empty();
    assert!(!m.is_banned(7));
    assert!(m.ban(7));
    assert!(m.is_banned(7));
    // Banning again succeeds but changes nothing.
    assert!(!m.ban(7));
    assert!(m.is_banned(7));
    assert!(m.unban(7));
    assert!(!m.is_banned(7));
    // Unbanning a non-banned account reports it was not banned.
    assert!(!m.unban(7));
}

#[test]
fn loaded_lists_are_deduplicated() {
    let m = Moderation::from_lists(&vec![1, 2, 1, 3, 2], &vec![9, 9]);
    assert!(m.is_banned(1) && m.is_banned(2) && m.is_banned(3));
    assert!(!m.is_banned(9));
    assert!(m.is_moderator(9));
    assert_eq!(m.banned_list().len(), 3);
    assert_eq!(m.moderator_list().len(), 1);
}

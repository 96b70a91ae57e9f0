use babel_player::player::{PlayerClock, PlayerState};
use babel_player::Timestamp;

#[test]
fn clock_play_tick_pause_resume_scrub_reset() {
    let mut c = PlayerClock::new();
    assert_eq!(c.state, PlayerState::Stopped);
    assert_eq!(c.timestamp, 0);

    c.play(1000);
    assert_eq!(c.state, PlayerState::Playing);
    c.tick(1500);
    assert_eq!(c.timestamp, 500);

    c.pause(2000);
    assert_eq!(c.state, PlayerState::Paused);
    assert_eq!(c.timestamp, 1000);
    c.tick(2500);
    assert_eq!(c.timestamp, 1000);

    c.play(3000);
    c.tick(3500);
    assert_eq!(c.timestamp, 1500);

    c.scrub(200, 4000);
    assert_eq!(c.timestamp, 200);
    c.tick(4500);
    assert_eq!(c.timestamp, 700);

    c.reset();
    assert_eq!(c.state, PlayerState::Stopped);
    assert_eq!(c.timestamp, 0);
    assert_eq!(c.offset, 0);
}

#[test]
fn clock_scrub_while_paused_sits_at_target() {
    let mut c = PlayerClock::new();
    c.play(0);
    c.pause(300);
    c.scrub(9000, 400);
    assert_eq!(c.state, PlayerState::Paused);
    assert_eq!(c.timestamp, 9000);
    c.tick(500);
    assert_eq!(c.timestamp, 9000);
}

#[test]
fn clock_play_while_playing_is_noop() {
    let mut c = PlayerClock::new();
    c.play(100);
    c.tick(200);
    c.play(900);
    c.tick(300);
    assert_eq!(c.timestamp, 200);
}

#[test]
fn timestamp_parts_decompose_a_reading() {
    let t = Timestamp::from_millis(3 * 60000 + 25 * 1000 + 731);
    assert_eq!(t.minutes(), 3);
    assert_eq!(t.seconds_part(), 25);
    assert_eq!(t.millis_part(), 731);
    let back = Timestamp::from_parts(3, 25, 731);
    assert_eq!(back.millis, t.millis);
}

#[test]
fn timestamp_from_parts_saturates() {
    let t = Timestamp::from_parts(u64::MAX, 0, 0);
    assert_eq!(t.millis, u64::MAX);
}

#[test]
fn timestamp_saturating_arithmetic() {
    let a = Timestamp::from_millis(10);
    let b = Timestamp::from_millis(25);
    assert_eq!(a.saturating_add(b).millis, 35);
    assert_eq!(a.saturating_sub(b).millis, 0);
    assert_eq!(b.saturating_sub(a).millis, 15);
    assert_eq!(Timestamp::from_millis(u64::MAX).saturating_add(a).millis, u64::MAX);
    assert!(a.lt(b));
    assert!(a.le(a));
    assert!(!b.lt(a));
}

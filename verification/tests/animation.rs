use std::time::{Duration, Instant};
use turtle_graphics::animation::Anim;

#[test]
fn anim_new_starts_empty_running() {
    let a = Anim::new(10);
    assert_eq!(a.drawn(), 0);
    assert_eq!(a.total(), 10);
    assert_eq!(a.speed(), 3);
    assert!(!a.paused());
}

#[test]
fn anim_advance_reveals_speed_segments_up_to_total() {
    let mut a = Anim::new(7);
    let now = Instant::now();
    assert!(!a.advance(0, now));
    assert_eq!(a.drawn(), 0);
    assert!(a.advance(16_000_000, now));
    assert_eq!(a.drawn(), 3);
    assert!(a.advance(16_000_000, now));
    assert_eq!(a.drawn(), 6);
    assert!(a.advance(16_000_000, now));
    assert_eq!(a.drawn(), 7);
    assert!(!a.advance(16_000_000, now));
    assert_eq!(a.drawn(), 7);
}

#[test]
fn anim_paused_does_not_advance() {
    let mut a = Anim::new(5);
    a.toggle_pause();
    assert!(a.paused());
    assert!(!a.advance(16_000_000, Instant::now()));
    assert!(!a.tick());
    assert_eq!(a.drawn(), 0);
    a.toggle_pause();
    assert!(!a.paused());
}

#[test]
fn anim_tick_waits_for_a_frame() {
    let mut a = Anim::new(100);
    let start = Instant::now();
    while start.elapsed() < Duration::from_millis(20) {}
    assert!(a.tick());
    assert_eq!(a.drawn(), 3);
    // immediately afterwards too little time has passed
    assert!(!a.tick());
    assert_eq!(a.drawn(), 3);
}

#[test]
fn anim_speed_doubles_and_halves_down_to_one() {
    let mut a = Anim::new(0);
    a.speed_up();
    assert_eq!(a.speed(), 6);
    a.speed_down();
    assert_eq!(a.speed(), 3);
    for _ in 0..20 {
        a.speed_up();
    }
    assert_eq!(a.speed(), 3 << 20);
    for _ in 0..20 {
        a.speed_down();
    }
    assert_eq!(a.speed(), 3);
    a.speed_down();
    assert_eq!(a.speed(), 1);
    a.speed_down();
    assert_eq!(a.speed(), 1);
}

#[test]
fn anim_finish_and_restart() {
    let mut a = Anim::new(42);
    a.toggle_pause();
    a.finish();
    assert_eq!(a.drawn(), 42);
    assert!(!a.advance(16_000_000, Instant::now()));
    a.restart();
    assert_eq!(a.drawn(), 0);
    assert!(!a.paused());
}

#[test]
fn anim_advance_waits_for_sixteen_milliseconds() {
    let mut a = Anim::new(10);
    let now = Instant::now();
    assert!(!a.advance(15_999_999, now));
    assert_eq!(a.drawn(), 0);
    assert!(a.advance(16_000_000, now));
    assert_eq!(a.drawn(), 3);
    assert!(a.advance(u128::MAX, now));
    assert_eq!(a.drawn(), 6);
}

#[test]
fn anim_speed_up_doubles_past_two_thousand() {
    let mut a = Anim::new(0);
    for _ in 0..9 {
        a.speed_up();
    }
    assert_eq!(a.speed(), 1536);
    a.speed_up();
    assert_eq!(a.speed(), 3072);
}

use minesweeper::seven_segment_number::SevenSegmentNumber;
use minesweeper::time::Time;
use minesweeper::time::TimeModifier;

const SEC: u64 = 1_000_000_000;

#[test]
fn modifier_apply_scales() {
    assert_eq!(TimeModifier::Normal.apply(10 * SEC), 10 * SEC);
    assert_eq!(TimeModifier::Slowdown(2).apply(10 * SEC), 5 * SEC);
    assert_eq!(TimeModifier::Speedup(4).apply(10 * SEC), 40 * SEC);
    assert_eq!(TimeModifier::Slowdown(16).apply(SEC), SEC / 16);
}

#[test]
fn modifier_steps_through_the_ladder() {
    let mut m = TimeModifier::Normal;
    assert!(m.decrease());
    assert_eq!(m, TimeModifier::Slowdown(2));
    assert!(m.decrease());
    assert!(m.decrease());
    assert!(m.decrease());
    assert_eq!(m, TimeModifier::Slowdown(16));
    assert!(!m.decrease());
    assert_eq!(m, TimeModifier::Slowdown(16));
    let mut s = TimeModifier::Normal;
    assert!(s.increase());
    assert_eq!(s, TimeModifier::Speedup(2));
    assert!(s.increase());
    assert!(s.increase());
    assert!(s.increase());
    assert_eq!(s, TimeModifier::Speedup(16));
    assert!(!s.increase());
    let mut back = TimeModifier::Speedup(2);
    assert!(back.decrease());
    assert_eq!(back, TimeModifier::Normal);
    let mut up = TimeModifier::Slowdown(2);
    assert!(up.increase());
    assert_eq!(up, TimeModifier::Normal);
    up.reset();
    assert_eq!(up, TimeModifier::Normal);
}

#[test]
fn time_lifecycle() {
    let mut t = Time::NotStarted;
    assert!(!t.is_playing());
    assert_eq!(t.duration(5 * SEC, &TimeModifier::Normal, None), 0);
    t.start(SEC);
    assert!(t.is_playing());
    assert_eq!(t.duration(4 * SEC, &TimeModifier::Normal, None), 3 * SEC);
    t.pause(4 * SEC);
    assert_eq!(t, Time::Paused(3 * SEC));
    assert_eq!(t.duration(9 * SEC, &TimeModifier::Normal, None), 3 * SEC);
    t.resume(10 * SEC);
    assert!(t.is_playing());
    assert_eq!(t.duration(12 * SEC, &TimeModifier::Normal, None), 5 * SEC);
    t.end(12 * SEC);
    assert_eq!(t, Time::Ended(5 * SEC));
    // terminal: nothing changes any more
    t.pause(13 * SEC);
    t.resume(13 * SEC);
    t.end(13 * SEC);
    assert_eq!(t, Time::Ended(5 * SEC));
}

#[test]
fn time_end_from_fresh_records_zero() {
    let mut t = Time::NotStarted;
    t.end(7 * SEC);
    assert_eq!(t, Time::Ended(0));
}

#[test]
fn modifier_change_preserves_reported_duration() {
    // live clock at 8s, reported 8s under Normal
    let mut t = Time::NotStarted;
    t.start(0);
    let now = 8 * SEC;
    let mut m = TimeModifier::Normal;
    let before = t.duration(now, &m, None);
    // slow down: raw doubles, report halves back to the same value
    assert!(m.decrease());
    t.modifier_decreased(now);
    assert_eq!(t.duration(now, &m, None), before);
    // and back up again
    assert!(m.increase());
    t.modifier_increased(now);
    assert_eq!(t.duration(now, &m, None), before);
    // several switches in a row still report the same instant
    for _ in 0..3 {
        m.increase();
        t.modifier_increased(now);
    }
    for _ in 0..3 {
        m.decrease();
        t.modifier_decreased(now);
    }
    assert_eq!(t.duration(now, &m, None), before);
}

#[test]
fn paused_duration_rescales_with_modifier() {
    let mut t = Time::Paused(8 * SEC);
    let mut m = TimeModifier::Normal;
    m.decrease();
    t.modifier_decreased(0);
    assert_eq!(t, Time::Paused(16 * SEC));
    assert_eq!(t.duration(0, &m, None), 8 * SEC);
    m.increase();
    t.modifier_increased(0);
    assert_eq!(t, Time::Paused(8 * SEC));
}

#[test]
fn replay_cap_clamps_reported_duration() {
    let mut t = Time::NotStarted;
    t.start(0);
    assert_eq!(t.duration(9 * SEC, &TimeModifier::Normal, Some(4 * SEC)), 4 * SEC);
    assert_eq!(t.duration(2 * SEC, &TimeModifier::Normal, Some(4 * SEC)), 2 * SEC);
}

#[test]
fn seven_segment_number_holds_value() {
    assert_eq!(SevenSegmentNumber::new(42).number, 42);
    assert_eq!(SevenSegmentNumber::new(-5).number, -5);
}

use tetris::input::{ButtonInput, TouchInput};

#[test]
fn button_trigger_and_release() {
    let mut b = ButtonInput::new();
    b.update(10);
    b.button_press((0, 32));
    assert!(b.is_pressed((0, 32)));
    assert!(b.is_triggered((0, 32)));
    assert_eq!(b.get_button_press_timestamp((0, 32)), Some(10));
    b.update(20);
    assert!(b.is_pressed((0, 32)));
    assert!(!b.is_triggered((0, 32)));
    b.button_press((0, 32));
    assert_eq!(b.get_button_press_timestamp((0, 32)), Some(10));
    b.button_release((0, 32));
    assert!(!b.is_pressed((0, 32)));
    assert!(!b.is_pressed((1, 32)));
}

#[test]
fn repeat_timing() {
    let (d, r) = (200, 67);
    let id = (0, 65);
    let mut b = ButtonInput::new();
    b.update(1000);
    b.button_press(id);
    assert!(b.is_triggered_or_repeat(id, d, r));
    b.update(1100);
    assert!(!b.is_triggered_or_repeat(id, d, r));
    b.update(1199);
    assert!(!b.is_triggered_or_repeat(id, d, r));
    b.update(1200);
    assert!(b.is_triggered_or_repeat(id, d, r));
    b.update(1250);
    assert!(!b.is_triggered_or_repeat(id, d, r));
    b.update(1267);
    assert!(b.is_triggered_or_repeat(id, d, r));
    b.update(1300);
    assert!(!b.is_triggered_or_repeat(id, d, r));
    b.update(1334);
    assert!(b.is_triggered_or_repeat(id, d, r));
    assert!(!b.is_triggered_or_repeat((0, 66), d, r));
}

#[test]
fn swipe_up_is_recognised() {
    let mut t = TouchInput::new();
    t.update(0);
    t.touch_start(1, 100, 300);
    t.update(50);
    t.touch_end(1, 110, 100);
    assert_eq!(t.swipes(100).len(), 1);
    assert_eq!(t.swipes_up(100).len(), 1);
    assert!(t.swipes_down(100).is_empty());
    assert!(t.swipes_left(100).is_empty());
    assert!(t.swipes_right(100).is_empty());
    assert!(t.taps(25, 500).is_empty());
    t.update(60);
    assert!(t.swipes(100).is_empty());
}

#[test]
fn diagonal_drag_is_no_directed_swipe() {
    let mut t = TouchInput::new();
    t.touch_start(4, 0, 0);
    t.touch_end(4, 150, -120);
    assert_eq!(t.swipes(100).len(), 1);
    assert!(t.swipes_up(100).is_empty());
    assert!(t.swipes_right(100).is_empty());
}

#[test]
fn tap_is_recognised() {
    let mut t = TouchInput::new();
    t.update(1000);
    t.touch_start(7, 50, 50);
    t.update(1100);
    t.touch_end(7, 55, 48);
    let taps = t.taps(25, 500);
    assert_eq!(taps.len(), 1);
    assert_eq!(taps[0].0, 7);
    assert!(t.swipes(100).is_empty());
}

#[test]
fn slow_touch_is_no_tap() {
    let mut t = TouchInput::new();
    t.update(0);
    t.touch_start(7, 50, 50);
    t.update(600);
    t.touch_end(7, 50, 50);
    assert!(t.taps(25, 500).is_empty());
}

#[test]
fn motions_report_previous_and_latest() {
    let mut t = TouchInput::new();
    t.touch_start(2, 0, 0);
    t.update(10);
    assert_eq!(t.motions().len(), 1);
    t.touch_move(2, 60, 5);
    let m = t.motions();
    assert_eq!(m.len(), 1);
    let (id, start, prev, curr) = m[0];
    assert_eq!(id, 2);
    assert_eq!((start.position.x, prev.position.x, curr.position.x), (0, 0, 60));
    assert_eq!(curr.timestamp, 10);
    t.touch_cancel(2, 0, 0);
    assert!(t.motions().is_empty());
    t.touch_end(2, 0, 0);
    assert!(t.swipes(0).is_empty());
}

#[test]
fn swipe_must_exceed_the_distance() {
    let mut t = TouchInput::new();
    t.touch_start(1, 0, 0);
    t.touch_end(1, 100, 0);
    assert!(t.swipes(100).is_empty());
    t.touch_start(2, 0, 0);
    t.touch_end(2, 101, 0);
    assert_eq!(t.swipes_right(100).len(), 1);
}

#[test]
fn directed_swipe_needs_twice_the_cross_move() {
    let mut t = TouchInput::new();
    t.touch_start(1, 0, 0);
    t.touch_end(1, 98, 49);
    assert_eq!(t.swipes(100).len(), 1);
    assert!(t.swipes_right(100).is_empty());
    t.update(10);
    t.touch_start(2, 0, 0);
    t.touch_end(2, -120, 30);
    assert_eq!(t.swipes_left(100).len(), 1);
}

use tetris::util::{format_timestamp, stats_html, clamp, random_index_pairs, Clock, LinearCongruentialGenerator, Position};

#[test]
fn position_new_and_origin() {
    let p = Position::new(3, -4);
    assert_eq!((p.x, p.y), (3, -4));
    let o = Position::origin();
    assert_eq!((o.x, o.y), (0, 0));
}

#[test]
fn position_add_moves_and_saturates() {
    let p = Position::new(5, 7).add_x(-2).add_y(3);
    assert_eq!((p.x, p.y), (3, 10));
    assert_eq!(Position::new(i32::MAX, 0).add_x(1).x, i32::MAX);
    assert_eq!(Position::new(0, i32::MIN).add_y(-1).y, i32::MIN);
}

#[test]
fn lcg_sequence() {
    let mut g = LinearCongruentialGenerator::new(1);
    assert_eq!(g.next(), 3554416254);
    assert_eq!(g.next(), 2802067423);
}

#[test]
fn clamp_values() {
    assert_eq!(clamp(-5, 0, 10), 0);
    assert_eq!(clamp(15, 0, 10), 10);
    assert_eq!(clamp(7, 0, 10), 7);
}

#[test]
fn random_index_pairs_values() {
    let r = random_index_pairs(2, 6, &vec![0, u32::MAX, 1 << 31]);
    assert_eq!(r, vec![(5, 2), (4, 4), (3, 3)]);
}

#[test]
fn random_index_pairs_short_ranges() {
    assert!(random_index_pairs(3, 3, &vec![]).is_empty());
    assert!(random_index_pairs(3, 4, &vec![]).is_empty());
}

#[test]
fn clock_suspend_and_resume() {
    let mut c = Clock::new();
    c.update(100);
    assert_eq!(c.elapsed(), 0);
    c.update(150);
    assert_eq!(c.elapsed(), 50);
    c.suspend();
    assert!(c.is_suspended());
    c.update(300);
    assert_eq!(c.elapsed(), 50);
    c.resume();
    c.update(400);
    assert_eq!(c.elapsed(), 150);
    c.toggle(true);
    c.update(1000);
    assert_eq!(c.elapsed(), 150);
}

#[test]
fn clock_passes_multiples() {
    let mut c = Clock::new();
    c.update(0);
    c.update(999);
    assert!(!c.has_passed_multiple_of(1000, 0));
    c.update(1000);
    assert!(c.has_passed_multiple_of(1000, 0));
    assert!(!c.has_passed_multiple_of(0, 0));
    c.update(1400);
    assert!(!c.has_passed_multiple_of(1000, 500));
    c.update(1500);
    assert!(c.has_passed_multiple_of(1000, 500));
}

#[test]
fn timestamps_are_formatted() {
    assert_eq!(format_timestamp(0), "00:00.00");
    assert_eq!(format_timestamp(61_234), "01:01.23");
    assert_eq!(format_timestamp(3_723_450), "1:02:03.45");
    assert_eq!(format_timestamp(36_000_009), "10:00:00.00");
}

#[test]
fn stats_markup_lists_the_values() {
    assert_eq!(
        stats_html(61_234, 1200, 12, 2),
        "<div><span class = \"name\">TIME</span><span class = \"value\">01:01.23</span></div>\
<div><span class = \"name\">SCORE</span><span class = \"value\">1200</span></div>\
<div><span class = \"name\">LINES</span><span class = \"value\">12</span></div>\
<div><span class = \"name\">LEVEL</span><span class = \"value\">2</span></div>"
    );
}

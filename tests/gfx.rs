use tetris::ease::{cubic_in, cubic_out, linear, quadratic_in, quadratic_out};
use tetris::gfx::{Animation, AnimationQueue, Color, GameOverAnimation, LineClearAnimation, TitleAnimation, WhooshAnimation};

#[test]
fn color_packing() {
    let c = Color::from_argb32(0x12345678);
    assert_eq!((c.r, c.g, c.b), (0x34, 0x56, 0x78));
    assert_eq!(c.to_argb32(), 0x345678);
    assert_eq!(Color::rgb(1, 2, 3).to_argb32(), 0x010203);
    assert_eq!(Color::white().to_argb32(), 0xffffff);
    assert_eq!(Color::black().to_argb32(), 0);
}

#[test]
fn color_mix_and_fade() {
    let a = Color::rgb(10, 0, 255);
    let b = Color::rgb(20, 255, 0);
    assert_eq!(a.mix(&b, 500), Color::rgb(15, 128, 128));
    assert_eq!(a.mix(&b, 0), a);
    assert_eq!(a.mix(&b, 1000), b);
    assert_eq!(Color::white().fade(400), Color::rgb(102, 102, 102));
    assert_eq!(Color::rgb(0, 0, 0x80).fade(500), Color::rgb(0, 0, 64));
}

#[test]
fn easing_values() {
    assert_eq!(linear(300), 300);
    assert_eq!(quadratic_in(500), 250);
    assert_eq!(quadratic_out(500), 750);
    assert_eq!(cubic_in(500), 125);
    assert_eq!(cubic_out(500), 875);
    assert_eq!(quadratic_out(1000), 1000);
    assert_eq!(cubic_out(0), 0);
}

#[test]
fn line_clear_frames() {
    let a = LineClearAnimation::new(vec![3], 2);
    assert_eq!(a.draw(0), vec![(0, 3, 0xffffff), (1, 3, 0xffffff)]);
    assert_eq!(a.draw(350), vec![(0, 3, 0xbfbfbf), (1, 3, 0xbfbfbf)]);
    assert_eq!(a.draw(800), vec![(0, 3, 0), (1, 3, 0)]);
    assert_eq!(a.draw(5000), vec![(0, 3, 0), (1, 3, 0)]);
}

#[test]
fn whoosh_frames() {
    let a = WhooshAnimation::new(vec![(0, 0)], Color::white(), 1, 0, 2);
    assert_eq!(a.draw(0), vec![(1, 0, 0xffffff), (1, 1, 0xffffff), (1, 2, 0xffffff)]);
    assert_eq!(a.draw(1000), vec![(1, 0, 0), (1, 1, 0), (1, 2, 0xffffff)]);
    assert_eq!(a.draw(500), vec![(1, 0, 0), (1, 1, 0x808080), (1, 2, 0xffffff)]);
}

#[test]
fn game_over_frames() {
    let a = GameOverAnimation::new(2, 2);
    assert!(a.draw(0).is_empty());
    assert_eq!(a.draw(500), vec![(0, 1, 0), (1, 1, 0)]);
    assert_eq!(a.draw(1000), vec![(0, 0, 0), (1, 0, 0), (0, 1, 0), (1, 1, 0)]);
    assert_eq!(a.draw(750), vec![(0, 0, 0x808080), (1, 0, 0x808080), (0, 1, 0), (1, 1, 0)]);
}

#[test]
fn title_frames() {
    let a = TitleAnimation::new(10, 20);
    let quiet = a.draw(450);
    assert_eq!(quiet.len(), 200);
    assert!(quiet.iter().all(|b| b.2 == 0));
    let busy = a.draw(0);
    assert_eq!(busy.len(), 204);
    assert!(busy[200..].iter().all(|b| b.2 != 0 && b.0 < 10 && b.1 < 20));
    assert_eq!(a.draw(100), busy);
}

#[test]
fn queue_runs_and_drops_effects() {
    let mut q = AnimationQueue::new();
    assert!(q.is_empty());
    q.schedule(100, 1000, Animation::LineClear(LineClearAnimation::new(vec![0], 1)));
    assert!(q.should_block());
    assert!(q.tick(50).is_empty());
    assert_eq!(q.tick(100), vec![(0, 0, 0xffffff)]);
    assert_eq!(q.tick(1000), vec![(0, 0, 0)]);
    assert!(!q.is_empty());
    assert_eq!(q.tick(1100), vec![(0, 0, 0)]);
    assert!(q.is_empty());
    assert!(!q.should_block());
}

#[test]
fn title_effect_does_not_block() {
    let mut q = AnimationQueue::new();
    q.endless(Animation::Title(TitleAnimation::new(4, 4)));
    assert!(!q.should_block());
    assert_eq!(q.tick(450).len(), 16);
    assert!(!q.is_empty());
    q.schedule(0, 3000, Animation::GameOver(GameOverAnimation::new(4, 4)));
    assert!(q.should_block());
}

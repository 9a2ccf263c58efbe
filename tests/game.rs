use tetris::game::{gravity_interval, playable_size, score_for_lines, Frame, Game, RunningState, Status};

fn has_status(f: &Frame, s: Status) -> bool {
    f.status.iter().any(|x| *x == s)
}

#[test]
fn line_scores() {
    assert_eq!(score_for_lines(0), 0);
    assert_eq!(score_for_lines(1), 100);
    assert_eq!(score_for_lines(2), 200);
    assert_eq!(score_for_lines(3), 400);
    assert_eq!(score_for_lines(4), 800);
    assert_eq!(score_for_lines(40), u32::MAX);
}

#[test]
fn gravity_speeds_up_with_level() {
    assert_eq!(gravity_interval(1), 1000);
    assert_eq!(gravity_interval(2), 905);
    assert_eq!(gravity_interval(10), 407);
    assert_eq!(gravity_interval(20), 150);
    assert_eq!(gravity_interval(30), 150);
}

#[test]
fn new_game_state() {
    let s = RunningState::new(0, 10, 20);
    assert_eq!((s.score(), s.num_cleared_lines(), s.level()), (0, 0, 1));
    let p = s.position();
    assert_eq!((p.x, p.y, s.rotation()), (3, -1, 0));
}

#[test]
fn four_turns_restore_the_piece() {
    let mut s = RunningState::new(0, 10, 20);
    assert!(s.move_piece_y(2));
    let p = s.position();
    assert_eq!((p.x, p.y), (3, 1));
    for _ in 0..4 {
        assert!(s.rotate_piece(1));
    }
    let q = s.position();
    assert_eq!((q.x, q.y, s.rotation()), (3, 1, 0));
    assert!(!s.rotate_piece(-4));
    assert_eq!(s.rotation(), 0);
}

#[test]
fn rotation_kicks_off_the_top() {
    let mut s = RunningState::new(0, 10, 20);
    assert!(s.rotate_piece(1));
    let p = s.position();
    assert_eq!((p.x, p.y, s.rotation()), (3, 0, 1));
}

#[test]
fn moves_stop_at_the_wall() {
    let mut s = RunningState::new(0, 10, 20);
    assert!(!s.move_piece_x(-10));
    assert_eq!(s.position().x, 0);
    assert!(s.move_piece_x(2));
    assert_eq!(s.position().x, 2);
    assert!(!s.move_piece_x(0));
    assert!(!s.move_piece_y(0));
    assert!(!s.move_piece_y(30));
    assert_eq!(s.position().y, 18);
}

#[test]
fn hard_drop_locks_the_piece() {
    let mut s = RunningState::new(0, 10, 20);
    assert!(!s.hard_drop_piece());
    for x in 3..7 {
        assert!(s.board().get_block(x, 19).is_some());
    }
    assert!(s.board().get_block(2, 19).is_none());
    assert_eq!(s.score(), 0);
    let p = s.position();
    assert_eq!((p.x, p.y, s.rotation()), (4, 0, 0));
}

#[test]
fn blocked_spawn_ends_the_game() {
    let mut s = RunningState::new(0, 10, 20);
    let mut over = false;
    for _ in 0..100 {
        if s.hard_drop_piece() {
            over = true;
            break;
        }
    }
    assert!(over);
}

#[test]
fn full_row_scores_one_hundred() {
    let mut s = RunningState::new(0, 4, 4);
    assert!(!s.hard_drop_piece());
    assert_eq!(s.score(), 100);
    assert_eq!(s.num_cleared_lines(), 1);
    assert!(s.board().get_block(0, 3).is_none());
}

#[test]
fn title_then_game_then_game_over() {
    let mut g = Game::new(0, 10, 20);
    let f = g.tick(0);
    assert!(has_status(&f, Status::TitleScreen));
    assert!(f.blocks.len() >= 200);
    g.key_handler(32, 1);
    let f = g.tick(16);
    assert!(has_status(&f, Status::Playing));
    g.key_handler(32, 0);
    let f = g.tick(32);
    assert!(f.status.iter().any(|s| matches!(s, Status::Stats { score: 0, lines: 0, level: 1, .. })));
    assert_eq!(f.blocks.len(), 200 + 4 + 4);
    g.key_handler(27, 1);
    let f = g.tick(48);
    assert!(has_status(&f, Status::GameOverScreen));
    let f = g.tick(64);
    assert!(!has_status(&f, Status::TitleScreen));
    g.key_handler(27, 0);
    let _ = g.tick(3100);
    g.key_handler(32, 1);
    let f = g.tick(3116);
    assert!(has_status(&f, Status::TitleScreen));
}

#[test]
fn swipe_up_starts_a_game() {
    let mut g = Game::new(0, 10, 20);
    let _ = g.tick(0);
    g.touch_start_handler(1, 200, 500);
    let _ = g.tick(16);
    g.touch_move_handler(1, 200, 400);
    g.touch_end_handler(1, 205, 300);
    let f = g.tick(32);
    assert!(has_status(&f, Status::Playing));
    g.touch_start_handler(2, 0, 0);
    g.touch_cancel_handler(2, 0, 0);
    let _ = g.tick(48);
}

#[test]
fn playable_board_sizes() {
    assert!(playable_size(4, 4));
    assert!(playable_size(10, 20));
    assert!(!playable_size(3, 20));
    assert!(!playable_size(10, 3));
    assert!(!playable_size(i32::MAX as usize + 1, 4));
    assert!(playable_size(i32::MAX as usize, 4));
}

#[test]
fn small_boards_report_a_blocked_start() {
    assert!(!RunningState::new(0, 3, 20).piece_fits());
    assert!(!RunningState::new(0, 0, 0).piece_fits());
    assert!(!RunningState::new(0, 10, 0).piece_fits());
    assert!(RunningState::new(0, 4, 1).piece_fits());
    assert!(RunningState::new(0, 10, 20).piece_fits());
}

#[test]
fn gravity_waits_for_the_clock() {
    let mut s = RunningState::new(0, 10, 20);
    assert!(!s.apply_gravity());
    let p = s.position();
    assert_eq!((p.x, p.y), (3, -1));
}

use tetris::board::Board;
use tetris::game::score_for_lines;
use tetris::gfx::Color;
use tetris::piece::make_standard;
use tetris::util::Position;

fn filled(b: &Board) -> usize {
    let mut n = 0;
    for y in 0..b.height() {
        for x in 0..b.width() {
            if b.get_block(x, y).is_some() {
                n += 1;
            }
        }
    }
    n
}

#[test]
fn new_board_is_empty() {
    let b = Board::new(10, 20);
    assert_eq!((b.width(), b.height()), (10, 20));
    assert_eq!(filled(&b), 0);
}

#[test]
fn collides_outside_the_grid() {
    let pieces = make_standard();
    let b = Board::new(10, 20);
    let i = &pieces[0];
    assert!(b.collides(i, &Position::new(-1, 0), 0));
    assert!(b.collides(i, &Position::new(7, 0), 0));
    assert!(b.collides(i, &Position::new(0, 19), 0));
    assert!(b.collides(i, &Position::new(0, -2), 0));
    assert!(!b.collides(i, &Position::new(0, -1), 0));
    assert!(!b.collides(i, &Position::new(6, 18), 0));
}

#[test]
fn collides_with_filled_cell() {
    let pieces = make_standard();
    let mut b = Board::new(10, 20);
    b.put_block(2, 1, Color::white());
    assert!(b.collides(&pieces[0], &Position::new(0, 0), 0));
    assert!(!b.collides(&pieces[0], &Position::new(0, 1), 0));
}

#[test]
fn placed_piece_collides_where_it_stands() {
    let pieces = make_standard();
    let mut b = Board::new(10, 20);
    let p = Position::new(0, 0);
    assert!(!b.collides(&pieces[0], &p, 0));
    b.put_piece(&pieces[0], &p, 0);
    assert!(b.collides(&pieces[0], &p, 0));
    for x in 0..4 {
        assert_eq!(b.get_block(x, 1), Some(Color::rgb(0, 255, 255)));
    }
    assert_eq!(filled(&b), 4);
}

#[test]
fn drop_position_on_empty_board() {
    let pieces = make_standard();
    let b = Board::new(10, 20);
    let start = Position::new(3, -1);
    let p = b.find_drop_position(&pieces[0], &start, 0);
    assert_eq!((p.x, p.y), (3, 18));
    assert!(!b.collides(&pieces[0], &p, 0));
    assert!(b.collides(&pieces[0], &p.add_y(1), 0));
}

#[test]
fn drop_position_on_obstacle() {
    let pieces = make_standard();
    let mut b = Board::new(10, 20);
    b.put_block(4, 10, Color::white());
    let p = b.find_drop_position(&pieces[0], &Position::new(3, -1), 0);
    assert_eq!((p.x, p.y), (3, 8));
}

#[test]
fn clearing_a_completed_row() {
    let pieces = make_standard();
    let mut b = Board::new(10, 20);
    for x in 4..10 {
        b.put_block(x, 19, Color::white());
    }
    b.put_piece(&pieces[0], &Position::new(0, 18), 0);
    assert_eq!(b.clear_lines(), vec![19]);
    for x in 0..10 {
        assert!(b.get_block(x, 19).is_none());
    }
    assert_eq!(filled(&b), 0);
    assert_eq!(score_for_lines(1), 100);
}

#[test]
fn clearing_shifts_rows_down() {
    let mut b = Board::new(4, 4);
    for x in 0..4 {
        b.put_block(x, 3, Color::white());
        b.put_block(x, 1, Color::white());
    }
    b.put_block(1, 0, Color::black());
    b.put_block(0, 2, Color::black());
    assert_eq!(filled(&b), 10);
    assert_eq!(b.clear_lines(), vec![3, 1]);
    assert_eq!(filled(&b), 2);
    assert_eq!(b.get_block(1, 2), Some(Color::black()));
    assert_eq!(b.get_block(0, 3), Some(Color::black()));
    assert!(b.clear_lines().is_empty());
}

#[test]
fn clear_empties_the_board() {
    let mut b = Board::new(3, 3);
    b.put_block(1, 1, Color::white());
    b.clear();
    assert_eq!(filled(&b), 0);
    assert_eq!((b.width(), b.height()), (3, 3));
}

#[test]
fn draw_lists_every_cell() {
    let mut b = Board::new(2, 2);
    b.put_block(1, 0, Color::rgb(1, 2, 3));
    assert_eq!(b.draw(), vec![(0, 0, 0), (1, 0, 0x010203), (0, 1, 0), (1, 1, 0)]);
}

#[test]
fn initial_position_centres_piece() {
    let pieces = make_standard();
    let b = Board::new(10, 20);
    let p = b.initial_position(&pieces[0], 0);
    assert_eq!((p.x, p.y), (3, -1));
    let o = b.initial_position(&pieces[1], 0);
    assert_eq!((o.x, o.y), (4, 0));
}

#[test]
fn render_shows_filled_cells() {
    let mut b = Board::new(3, 2);
    b.put_block(0, 0, Color::white());
    b.put_block(2, 1, Color::white());
    assert_eq!(b.render(), "X  \n  X\n");
}

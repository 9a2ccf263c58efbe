use tetris::piece::{make_standard, make_ttc_original, Bag};
use tetris::util::Position;

#[test]
fn standard_catalog_names_and_colors() {
    let pieces = make_standard();
    let names: Vec<&str> = pieces.iter().map(|p| p.name.as_str()).collect();
    assert_eq!(names, vec!["I", "O", "J", "L", "S", "Z", "T"]);
    let colors: Vec<u32> = pieces.iter().map(|p| p.color.to_argb32()).collect();
    assert_eq!(colors, vec![0x00ffff, 0xffff00, 0x0000ff, 0xffa500, 0x00ff00, 0xff0000, 0xaa00ff]);
}

#[test]
fn i_piece_rotations() {
    let pieces = make_standard();
    let i = &pieces[0];
    assert_eq!(i.iter_coords(0), vec![(0, 1), (1, 1), (2, 1), (3, 1)]);
    assert_eq!(i.iter_coords(1), vec![(2, 0), (2, 1), (2, 2), (2, 3)]);
    assert_eq!(i.iter_coords(2), vec![(0, 2), (1, 2), (2, 2), (3, 2)]);
    assert_eq!(i.iter_coords(5), i.iter_coords(1));
}

#[test]
fn t_piece_quarter_turn() {
    let pieces = make_standard();
    let t = &pieces[6];
    assert_eq!(t.iter_coords(0), vec![(1, 0), (0, 1), (1, 1), (2, 1)]);
    assert_eq!(t.iter_coords(1), vec![(1, 0), (1, 1), (2, 1), (1, 2)]);
}

#[test]
fn piece_bounds() {
    let pieces = make_standard();
    assert_eq!(pieces[0].bounds(0), ((0, 1), (3, 1)));
    assert_eq!(pieces[0].bounds(1), ((2, 0), (2, 3)));
    assert_eq!(pieces[6].bounds(0), ((0, 0), (2, 1)));
    assert_eq!(pieces[1].bounds(3), ((0, 0), (1, 1)));
}

#[test]
fn centred_catalog_shapes() {
    let pieces = make_ttc_original();
    assert_eq!(pieces.len(), 7);
    assert_eq!(pieces[0].iter_coords(0), vec![(1, 2), (2, 2), (3, 2), (4, 2)]);
    assert_eq!(pieces[1].iter_coords(0), vec![(1, 0), (2, 0), (1, 1), (2, 1)]);
    assert_eq!(pieces[1].iter_coords(1), vec![(1, 1), (2, 1), (1, 2), (2, 2)]);
}

#[test]
fn bag_plays_pieces_in_turn() {
    let mut bag = Bag::new(make_standard());
    assert_eq!(bag.current().name, "I");
    bag.advance();
    assert_eq!(bag.current().name, "O");
    for _ in 0..6 {
        bag.advance();
    }
    assert_eq!(bag.current().name, "I");
}

#[test]
fn piece_draw_blocks() {
    let pieces = make_standard();
    let blocks = pieces[0].draw(&Position::new(3, 0), 0, 1000);
    assert_eq!(blocks, vec![(3, 1, 0x00ffff), (4, 1, 0x00ffff), (5, 1, 0x00ffff), (6, 1, 0x00ffff)]);
    let dim = pieces[0].draw(&Position::new(0, 0), 0, 400);
    assert_eq!(dim[0], (0, 1, 0x006666));
}

#[test]
fn every_rotation_has_four_blocks() {
    for pieces in [make_standard(), make_ttc_original()] {
        for p in pieces.iter() {
            for r in 0..8 {
                assert_eq!(p.iter_coords(r).len(), 4);
                assert_eq!(p.iter_coords(r), p.iter_coords(r % 4));
            }
        }
    }
}

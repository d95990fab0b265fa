use trapmouse::boardserver::{gameboard_state, wall_position, Board};

#[test]
fn new_board_state_and_text() {
    let mut b = Board::new();
    assert_eq!(gameboard_state(&b), '0');
    assert_eq!(wall_position(&b), Vec::<(i32, i32)>::new());
    assert_eq!(b.translate_to_moves('W', false), "{W}{0}{6,6}");
    assert_eq!(b.translate_to_moves('M', true), "{M}{F}{6,6}");
}

#[test]
fn walls_are_listed_row_by_row() {
    let mut b = Board::new();
    assert!(b.make_wall((3, 9)));
    assert!(b.make_wall((2, 10)));
    assert!(b.make_wall((3, 1)));
    assert!(b.make_wall((0, 0)));
    assert!(b.make_wall((12, 12)));
    assert!(!b.make_wall((13, 1)));
    assert!(!b.make_wall((-1, 1)));
    assert!(!b.make_wall((3, 9)));
    assert!(!b.make_wall((6, 6)));
    assert_eq!(wall_position(&b), vec![(2, 10), (3, 1), (3, 9)]);
    assert_eq!(b.translate_to_moves('M', false), "{M}{0}{6,6}{2,10}{3,1}{3,9}");
}

#[test]
fn mouse_moves_inside_the_field_only() {
    let mut b = Board::new();
    assert!(b.test_move_mouse(3));
    assert!(b.move_mouse(3));
    assert_eq!(b.mouse_pos, (6, 7));
    for _ in 0..4 {
        assert!(b.move_mouse(3));
    }
    assert_eq!(b.mouse_pos, (6, 11));
    assert!(b.test_move_mouse(3));
    assert!(!b.move_mouse(3));
    assert_eq!(b.mouse_pos, (6, 11));
    assert!(b.can_move_mouse(3));
    assert!(!b.can_move_mouse(7));
}

#[test]
fn trapped_mouse_loses() {
    let mut b = Board::new();
    // Row 6 is even: directions 1 to 6 lead to (5,6), (5,7), (6,7), (7,7), (7,6), (6,5).
    for p in [(5, 6), (5, 7), (6, 7), (7, 7), (7, 6)] {
        assert!(b.make_wall(p));
        assert_eq!(gameboard_state(&b), '0');
    }
    assert!(b.make_wall((6, 5)));
    assert_eq!(gameboard_state(&b), 'W');
    assert_eq!(
        b.translate_to_moves('W', true),
        "{W}{W}{6,6}{5,6}{5,7}{6,5}{6,7}{7,6}{7,7}"
    );
    for d in 1..7 {
        assert!(!b.move_mouse(d));
    }
    assert_eq!(b.mouse_pos, (6, 6));
}

#[test]
fn sixth_direction_keeps_the_mouse_free() {
    let mut b = Board::new();
    for p in [(5, 6), (5, 7), (6, 7), (7, 7), (7, 6)] {
        assert!(b.make_wall(p));
    }
    // Only direction 6, to (6,5), is open: the game goes on.
    assert_eq!(gameboard_state(&b), '0');
    assert!(b.move_mouse(6));
    assert_eq!(b.mouse_pos, (6, 5));
}

#[test]
fn mouse_out_of_the_field_shows_m() {
    let mut b = Board::new();
    b.mouse_pos = (0, 4);
    assert_eq!(gameboard_state(&b), 'M');
    b.mouse_pos = (12, 4);
    assert_eq!(gameboard_state(&b), 'M');
    b.mouse_pos = (0, -5);
    assert_eq!(b.translate_to_moves('W', true), "{W}{M}{0,-5}");
}

use trapmouse::boardserver::{any_difference, Cellprop};

#[test]
fn board_text_reads_back() {
    let mut b = Board::new();
    assert!(b.make_wall((2, 10)));
    assert!(b.make_wall((3, 1)));
    assert!(b.move_mouse(3));
    let text = b.translate_to_moves('W', false);
    assert_eq!(text, "{W}{0}{6,7}{2,10}{3,1}");
    let mut c = Board::new();
    c.translate_to_board(text.clone());
    assert_eq!(c.mouse_pos, (6, 7));
    for i in 1..12 {
        for j in 1..12 {
            assert_eq!(c.get_prop_at((i, j)), b.get_prop_at((i, j)), "cell {},{}", i, j);
        }
    }
    assert!(!any_difference(&b, &c));
    let mut d = Board::new();
    assert!(d.try_translate_to_board(text));
    assert_eq!(d.mouse_pos, (6, 7));
}

#[test]
fn board_text_with_mouse_out_of_range() {
    let mut c = Board::new();
    c.translate_to_board(String::from("{M}{0}{13,2}{1,1}"));
    // The mouse is not placed at 13, its old cell is freed, the wall goes on.
    assert_eq!(c.mouse_pos, (6, 6));
    assert_eq!(c.get_prop_at((6, 6)), Cellprop::Free);
    assert_eq!(c.get_prop_at((1, 1)), Cellprop::Wall);
    let mut short = Board::new();
    assert!(short.make_wall((4, 4)));
    short.translate_to_board(String::from("{M}{0}"));
    assert_eq!(short.mouse_pos, (6, 6));
    assert_eq!(short.get_prop_at((6, 6)), Cellprop::Mouse);
    assert_eq!(short.get_prop_at((4, 4)), Cellprop::Free);
}

#[test]
fn unreadable_board_text_is_refused() {
    let mut c = Board::new();
    assert!(!c.try_translate_to_board(String::from("{W}{0}{99999999999,1}")));
    assert_eq!(c.mouse_pos, (6, 6));
    assert!(!any_difference(&c, &Board::new()));
}

#[test]
fn set_mouse_moves_anywhere_in_range() {
    let mut b = Board::new();
    b.set_mouse((0, 12));
    assert_eq!(b.mouse_pos, (0, 12));
    assert_eq!(b.get_prop_at((0, 12)), Cellprop::Mouse);
    assert_eq!(b.get_prop_at((6, 6)), Cellprop::Free);
    b.set_mouse((13, 0));
    assert_eq!(b.mouse_pos, (0, 12));
    assert_eq!(b.get_prop_at((0, 12)), Cellprop::Free);
}

#[test]
fn differences_are_found() {
    let a = Board::new();
    let mut b = Board::new();
    assert!(!any_difference(&a, &b));
    assert!(b.make_wall((0, 0)));
    assert!(any_difference(&a, &b));
    let mut c = Board::new();
    c.mouse_pos = (1, 1);
    assert!(any_difference(&a, &c));
    assert!(a.can_tell_state());
    let mut bad = Board::new();
    bad.mouse_pos = (-1, 3);
    assert!(!bad.can_tell_state());
    bad.mouse_pos = (100000, 100000);
    assert!(!bad.can_tell_state());
}

#[test]
fn a_new_wall_takes_its_place_in_the_list() {
    let mut b = Board::new();
    assert!(b.make_wall((5, 5)));
    assert!(b.make_wall((2, 3)));
    assert_eq!(wall_position(&b), vec![(2, 3), (5, 5)]);
    assert!(b.make_wall((3, 1)));
    assert_eq!(wall_position(&b), vec![(2, 3), (3, 1), (5, 5)]);
    assert!(b.make_wall((5, 4)));
    assert_eq!(wall_position(&b), vec![(2, 3), (3, 1), (5, 4), (5, 5)]);
    // A wall refused, or put outside the field, leaves the list as it was.
    assert!(!b.make_wall((5, 4)));
    assert!(b.make_wall((0, 7)));
    assert!(!b.make_wall((13, 2)));
    assert_eq!(wall_position(&b), vec![(2, 3), (3, 1), (5, 4), (5, 5)]);
}

#[test]
fn play_keeps_the_mouse_in_the_field() {
    let mut b = Board::new();
    for d in [1, 1, 2, 3, 3, 6, 4, 5, 5, 5, 5] {
        for dir in 0..7 {
            assert!(b.can_move_mouse(dir));
        }
        b.move_mouse(d);
        assert!(b.can_tell_state());
        let (i, j) = b.mouse_pos;
        assert!((1..=11).contains(&i) && (1..=11).contains(&j));
        assert_ne!(gameboard_state(&b), 'M');
    }
}

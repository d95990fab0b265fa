use trapmouse::board::{other_player, Board};

fn picture_rows(b: &Board) -> Vec<String> {
    let text = b.debug_text_string();
    text.lines().map(|l| l.to_string()).collect()
}

#[test]
fn new_board_has_mouse_in_the_middle() {
    let b = Board::new();
    assert_eq!(b.dimcol, 11);
    assert_eq!(b.dimlin, 11);
    assert_eq!(b.mouse_pos, (6, 6));
    assert_eq!(b.state(1), 0);
    assert_eq!(b.state(2), 0);
    let rows = picture_rows(&b);
    assert_eq!(rows[0], "_________________________");
    assert_eq!(rows[1], "");
    assert_eq!(rows[2], "_ _ _ _ _ _ _ _ _ _ _ ");
    assert_eq!(rows[3], " _ _ _ _ _ _ _ _ _ _ _ ");
    assert_eq!(rows[7], " _ _ _ _ _ M _ _ _ _ _ ");
    assert_eq!(rows[13], "");
    assert_eq!(rows[14], "_________________________");
    assert_eq!(rows.len(), 15);
}

#[test]
fn debug_text_exact() {
    let b = Board::new();
    let mut want = String::from("_________________________\n\n");
    for i in 1..12 {
        if i % 2 == 0 {
            want.push(' ');
        }
        for j in 1..12 {
            want.push(if i == 6 && j == 6 { 'M' } else { '_' });
            want.push(' ');
        }
        want.push('\n');
    }
    want.push_str("\n_________________________\n");
    assert_eq!(b.debug_text_string(), want);
}

#[test]
fn walls_go_on_free_cells_only() {
    let mut b = Board::new();
    assert!(b.make_wall((2, 3)));
    assert!(!b.make_wall((2, 3)));
    assert!(!b.make_wall((6, 6)));
    let rows = picture_rows(&b);
    assert_eq!(rows[3], " _ _ W _ _ _ _ _ _ _ _ ");
    assert!(b.can_make_wall((0, 14)));
    assert!(!b.can_make_wall((15, 0)));
    assert!(!b.can_make_wall((-1, 3)));
}

#[test]
fn mouse_moves_on_even_row() {
    // Row 6 is even: direction 2 is up and to the right.
    let mut b = Board::new();
    assert!(b.can_move_mouse(2));
    assert!(b.move_mouse(2));
    assert_eq!(b.mouse_pos, (5, 7));
    let rows = picture_rows(&b);
    assert_eq!(rows[6], "_ _ _ _ _ _ M _ _ _ _ ");
    assert_eq!(rows[7], " _ _ _ _ _ _ _ _ _ _ _ ");
}

#[test]
fn mouse_moves_on_odd_row() {
    // Row 5 is odd: direction 1 is up and to the left.
    let mut b = Board::new();
    assert!(b.move_mouse(3));
    assert_eq!(b.mouse_pos, (6, 7));
    assert!(b.move_mouse(1));
    assert_eq!(b.mouse_pos, (5, 7));
    assert!(b.move_mouse(1));
    assert_eq!(b.mouse_pos, (4, 6));
    assert!(b.move_mouse(6));
    assert_eq!(b.mouse_pos, (4, 5));
}

#[test]
fn mouse_is_stopped_by_a_wall() {
    let mut b = Board::new();
    assert!(b.make_wall((6, 7)));
    assert!(!b.move_mouse(3));
    assert_eq!(b.mouse_pos, (6, 6));
    // Direction 0 stays put, onto the mouse's own cell, which is not free.
    assert!(!b.move_mouse(0));
}

#[test]
fn mouse_reaching_the_border_wins() {
    let mut b = Board::new();
    for _ in 0..5 {
        assert!(b.move_mouse(3));
    }
    assert_eq!(b.mouse_pos, (6, 11));
    assert_eq!(b.state(2), 0);
    assert!(b.move_mouse(3));
    assert_eq!(b.mouse_pos, (6, 12));
    assert_eq!(b.state(2), 2);
    assert_eq!(b.state(1), 1);
    assert!(b.can_report_state());
}

#[test]
fn faulty_moves_are_recognised() {
    let b = Board::new();
    assert!(!b.can_move_mouse(7));
    assert!(!b.can_move_mouse(-1));
    let mut far = Board::new();
    for _ in 0..8 {
        assert!(far.move_mouse(3));
    }
    assert_eq!(far.mouse_pos, (6, 14));
    assert!(!far.can_move_mouse(3));
}

#[test]
fn players_take_turns() {
    assert_eq!(other_player(2), 1);
    assert_eq!(other_player(1), 2);
}

#[test]
fn closed_in_mouse_is_a_win_for_the_walls() {
    let mut b = Board::new();
    // Row 6 is even: the six neighbours of (6,6) in directions 1 to 6.
    for p in [(5, 6), (5, 7), (6, 7), (7, 7), (7, 6)] {
        assert!(b.make_wall(p));
        assert_eq!(b.state(2), 0);
    }
    assert!(b.make_wall((6, 5)));
    assert_eq!(b.state(1), 1);
    assert_eq!(b.state(2), 1);
    for d in 1..7 {
        assert!(!b.move_mouse(d));
    }
}

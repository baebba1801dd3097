use tictactoe::{Board, GameError, Marker, Outcome};

fn board_of(player: &[(usize, usize)], enemy: &[(usize, usize)]) -> Board {
    let mut b = Board::new();
    for &(r, c) in player {
        b.place(r, c, Marker::Player).unwrap();
    }
    for &(r, c) in enemy {
        b.place(r, c, Marker::Enemy).unwrap();
    }
    b
}

fn drawn_full_board() -> Board {
    // X O X
    // X O O
    // O X X
    board_of(
        &[(0, 0), (0, 2), (1, 0), (2, 1), (2, 2)],
        &[(0, 1), (1, 1), (1, 2), (2, 0)],
    )
}

#[test]
fn full_board_without_line_is_a_draw() {
    let b = drawn_full_board();
    assert!(b.is_full());
    assert_eq!(b.evaluate(), Outcome::Draw);
    assert_eq!(b.get_value(), 2);
    for &prune in [false, true].iter() {
        assert_eq!(b.move_enemy_helper(false, 0, None, None, prune), (0, None));
        assert_eq!(b.move_enemy_helper(true, 3, None, None, prune), (0, None));
        assert_eq!(b.choose_move(prune), Err(GameError::NoLegalMoves));
    }
}

#[test]
fn finished_game_has_no_move() {
    let mut b = board_of(&[(0, 0), (0, 1), (0, 2)], &[(1, 0), (1, 1)]);
    assert_eq!(b.choose_move(true), Err(GameError::NoLegalMoves));
    assert_eq!(b.move_enemy(false), Err(GameError::NoLegalMoves));
    assert_eq!(b.enumerate_open_cells().len(), 4);
    assert_eq!(b.move_enemy_helper(false, 2, None, None, true), (8, None));
}

#[test]
fn terminal_scores_depend_on_depth() {
    let p = board_of(&[(0, 0), (1, 1), (2, 2)], &[(0, 1), (0, 2)]);
    assert_eq!(p.move_enemy_helper(false, 0, None, None, false), (10, None));
    assert_eq!(p.move_enemy_helper(true, 5, None, None, false), (5, None));
    let e = board_of(&[(0, 0), (1, 1)], &[(0, 2), (1, 2), (2, 2)]);
    assert_eq!(e.move_enemy_helper(true, 0, None, None, true), (-10, None));
    assert_eq!(e.move_enemy_helper(true, 4, None, None, false), (-6, None));
}

#[test]
fn empty_board_is_a_draw_with_perfect_play() {
    let b = Board::new();
    assert_eq!(b.move_enemy_helper(true, 0, None, None, true).0, 0);
    assert_eq!(b.move_enemy_helper(false, 0, None, None, true).0, 0);
    assert_eq!(b.move_enemy_helper(true, 0, None, None, false).0, 0);
}

#[test]
fn engine_against_itself_ends_in_a_draw() {
    for &prune in [true, false].iter() {
        let mut b = Board::new();
        let mut maximize = true;
        while b.evaluate() == Outcome::Ongoing {
            if maximize {
                let (_, m) = b.move_enemy_helper(true, 0, None, None, prune);
                let (r, c) = m.unwrap();
                b.place(r, c, Marker::Player).unwrap();
            } else {
                b.move_enemy(prune).unwrap();
            }
            maximize = !maximize;
        }
        assert_eq!(b.evaluate(), Outcome::Draw);
    }
}

#[test]
fn reply_to_center_keeps_the_game_open() {
    let b = board_of(&[(1, 1)], &[]);
    for &prune in [false, true].iter() {
        let mv = b.choose_move(prune).unwrap();
        assert_ne!(mv, (1, 1));
        let mut after = b;
        after.place(mv.0, mv.1, Marker::Enemy).unwrap();
        assert_eq!(after.evaluate(), Outcome::Ongoing);
        // The first player cannot force a win afterwards.
        assert_eq!(after.move_enemy_helper(true, 0, None, None, prune).0, 0);
    }
    // With the cells in row-major order the first corner is chosen.
    assert_eq!(b.choose_move(true), Ok((0, 0)));
}

#[test]
fn minimizer_blocks_an_open_row() {
    let b = board_of(&[(0, 0), (0, 1)], &[]);
    assert_eq!(b.choose_move(false), Ok((0, 2)));
    assert_eq!(b.choose_move(true), Ok((0, 2)));
    let c = board_of(&[(0, 0), (0, 1)], &[(1, 1)]);
    assert_eq!(c.choose_move(true), Ok((0, 2)));
    let mut d = c;
    assert_eq!(d.move_enemy(true), Ok((0, 2)));
    assert_eq!(d.cell(0, 2), Some(Marker::Enemy));
}

#[test]
fn maximizer_takes_an_immediate_win() {
    let b = board_of(&[(0, 0), (0, 1)], &[(1, 0), (1, 1)]);
    assert_eq!(b.move_enemy_helper(true, 0, None, None, false), (9, Some((0, 2))));
    assert_eq!(b.move_enemy_helper(true, 4, None, None, true), (5, Some((0, 2))));
}

#[test]
fn ties_go_to_the_first_cell_in_row_major_order() {
    // X X _
    // X O O
    // _ _ _   Player wins at (0, 2) and at (2, 0).
    let b = board_of(&[(0, 0), (0, 1), (1, 0)], &[(1, 1), (1, 2)]);
    assert_eq!(b.move_enemy_helper(true, 0, None, None, false), (9, Some((0, 2))));
    assert_eq!(b.move_enemy_helper(true, 0, None, None, true), (9, Some((0, 2))));
    // Every reply of the minimizer loses two plies later; the first cell is kept.
    let e = board_of(&[(0, 0), (0, 1), (1, 0)], &[(1, 1), (1, 2)]);
    let (v, m) = e.move_enemy_helper(false, 0, None, None, false);
    assert_eq!(v, 8);
    assert_eq!(m, Some((0, 2)));
}

#[test]
fn maximizer_avoids_a_loss_when_a_draw_exists() {
    // X O _
    // _ O _
    // _ _ X  Player must block (2, 1).
    let b = board_of(&[(0, 0), (2, 2)], &[(0, 1), (1, 1)]);
    for &prune in [false, true].iter() {
        let (v, m) = b.move_enemy_helper(true, 0, None, None, prune);
        assert!(v >= 0);
        assert_eq!(m, Some((2, 1)));
    }
}

#[test]
fn pruning_gives_the_same_result() {
    let boards = [
        Board::new(),
        board_of(&[(1, 1)], &[]),
        board_of(&[(0, 0)], &[(1, 1)]),
        board_of(&[(0, 0), (2, 2)], &[(0, 1), (1, 1)]),
        board_of(&[(0, 2), (1, 0)], &[(2, 2)]),
        board_of(&[(0, 0), (0, 1)], &[(1, 0), (1, 1)]),
    ];
    for b in boards.iter() {
        for &maximize in [true, false].iter() {
            assert_eq!(
                b.move_enemy_helper(maximize, 0, None, None, false),
                b.move_enemy_helper(maximize, 0, None, None, true)
            );
        }
    }
}

#[test]
fn bounds_outside_the_score_cut_the_search() {
    let b = board_of(&[(0, 0), (0, 1)], &[(1, 0), (1, 1)]);
    // The true score is 9; with beta at 3 a maximizing node stops at or above 3.
    let (v, _) = b.move_enemy_helper(true, 0, None, Some(3), true);
    assert!(v >= 3);
    // Within a window that holds the score, the exact score comes back.
    let (w, m) = b.move_enemy_helper(true, 0, Some(-5), Some(10), true);
    assert_eq!((w, m), (9, Some((0, 2))));
}

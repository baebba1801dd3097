use tictactoe::{Board, GameError, Marker, Outcome};

fn board_of(player: &[(usize, usize)], enemy: &[(usize, usize)]) -> Board {
    let mut b = Board::new();
    for &(r, c) in player {
        b.place(r, c, Marker::Player).unwrap();
    }
    for &(r, c) in enemy {
        b.place(r, c, Marker::Enemy).unwrap();
    }
    b
}

#[test]
fn new_board_is_empty_and_ongoing() {
    let b = Board::new();
    assert!(!b.is_full());
    assert_eq!(b.evaluate(), Outcome::Ongoing);
    assert_eq!(b.get_value(), 0);
    assert_eq!(b.enumerate_open_cells().len(), 9);
    for r in 0..3 {
        for c in 0..3 {
            assert_eq!(b.cell(r, c), None);
        }
    }
}

#[test]
fn place_rejects_out_of_bounds() {
    let mut b = Board::new();
    assert_eq!(b.place(3, 0, Marker::Player), Err(GameError::OutOfBounds));
    assert_eq!(b.place(0, 3, Marker::Enemy), Err(GameError::OutOfBounds));
    assert_eq!(b.enumerate_open_cells().len(), 9);
}

#[test]
fn place_rejects_occupied_cell() {
    let mut b = Board::new();
    assert_eq!(b.place(1, 2, Marker::Player), Ok(()));
    assert_eq!(b.place(1, 2, Marker::Enemy), Err(GameError::CellOccupied));
    assert_eq!(b.cell(1, 2), Some(Marker::Player));
}

#[test]
fn set_player_and_set_enemy_fill_cells() {
    let mut b = Board::new();
    b.set_player(0, 1);
    b.set_enemy(2, 2);
    assert_eq!(b.cell(0, 1), Some(Marker::Player));
    assert_eq!(b.cell(2, 2), Some(Marker::Enemy));
    assert_eq!(b.cell(1, 1), None);
}

#[test]
fn open_cells_come_in_row_major_order() {
    let b = board_of(&[(0, 0), (1, 1)], &[(2, 0)]);
    assert_eq!(
        b.enumerate_open_cells(),
        vec![(0, 1), (0, 2), (1, 0), (1, 2), (2, 1), (2, 2)]
    );
}

#[test]
fn children_place_the_side_to_move() {
    let b = board_of(&[(0, 0)], &[(1, 1)]);
    let kids = b.generate_children(false);
    assert_eq!(kids.len(), 7);
    let (first, r, c) = kids[0];
    assert_eq!((r, c), (0, 1));
    assert_eq!(first.cell(0, 1), Some(Marker::Enemy));
    assert_eq!(first.cell(0, 0), Some(Marker::Player));
    let kids = b.generate_children(true);
    let (last, r, c) = kids[6];
    assert_eq!((r, c), (2, 2));
    assert_eq!(last.cell(2, 2), Some(Marker::Player));
    assert_eq!(b.cell(2, 2), None);
}

#[test]
fn line_checks() {
    let b = board_of(&[(1, 0), (1, 1), (1, 2)], &[(0, 2), (2, 2)]);
    assert!(b.check_row_same(1, Marker::Player));
    assert!(!b.check_row_same(1, Marker::Enemy));
    assert!(!b.check_row_same(0, Marker::Player));
    assert!(!b.check_col_same(2, Marker::Enemy));
    assert!(!b.check_main_diag_same(Marker::Player));
    assert!(!b.check_secondary_diag_same(Marker::Player));
    let d = board_of(&[(0, 0), (1, 1), (2, 2)], &[(0, 2), (2, 0)]);
    assert!(d.check_main_diag_same(Marker::Player));
    let a = board_of(&[(0, 0)], &[(0, 2), (1, 1), (2, 0)]);
    assert!(a.check_secondary_diag_same(Marker::Enemy));
    let c = board_of(&[(0, 1), (1, 1), (2, 1)], &[]);
    assert!(c.check_col_same(1, Marker::Player));
}

#[test]
fn completed_lines_win_for_their_side_only() {
    let lines: [[(usize, usize); 3]; 8] = [
        [(0, 0), (0, 1), (0, 2)],
        [(1, 0), (1, 1), (1, 2)],
        [(2, 0), (2, 1), (2, 2)],
        [(0, 0), (1, 0), (2, 0)],
        [(0, 1), (1, 1), (2, 1)],
        [(0, 2), (1, 2), (2, 2)],
        [(0, 0), (1, 1), (2, 2)],
        [(0, 2), (1, 1), (2, 0)],
    ];
    for line in lines.iter() {
        for &(m, want, code) in [
            (Marker::Player, Outcome::PlayerWins, 1),
            (Marker::Enemy, Outcome::EnemyWins, -1),
        ]
        .iter()
        {
            let mut b = Board::new();
            b.place(line[0].0, line[0].1, m).unwrap();
            b.place(line[1].0, line[1].1, m).unwrap();
            assert_eq!(b.evaluate(), Outcome::Ongoing);
            b.place(line[2].0, line[2].1, m).unwrap();
            assert_eq!(b.evaluate(), want);
            assert_eq!(b.get_value(), code);
        }
    }
}

#[test]
fn win_on_last_cell_is_not_a_draw() {
    // X X X
    // O X O
    // X O O   A completed line decides a full board.
    let b = board_of(&[(0, 0), (0, 1), (0, 2), (1, 1), (2, 0)], &[(1, 0), (1, 2), (2, 1), (2, 2)]);
    assert!(b.is_full());
    assert_eq!(b.evaluate(), Outcome::PlayerWins);
    assert_eq!(b.get_value(), 1);
}

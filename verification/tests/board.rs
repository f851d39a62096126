use amazons::board::{Board, MAX_NUM_PLAYERS};
use amazons::geometry::{Player, Pos, Team};

fn at(row: i8, col: i8) -> Pos {
    Pos { row, col }
}

fn standard() -> Board {
    Board::new(
        10,
        vec![
            Player { team: Team::White, pos: at(3, 3) },
            Player { team: Team::White, pos: at(3, 6) },
            Player { team: Team::Black, pos: at(6, 3) },
            Player { team: Team::Black, pos: at(6, 6) },
        ],
    )
}

#[test]
fn new_board_marks_the_whole_border() {
    let b = standard();
    for k in 0..10 {
        assert!(b.wall_at(at(0, k)));
        assert!(b.wall_at(at(9, k)));
        assert!(b.wall_at(at(k, 0)));
        assert!(b.wall_at(at(k, 9)));
    }
}

#[test]
fn new_board_marks_inside_only_the_pieces() {
    let b = standard();
    let pieces = [at(3, 3), at(3, 6), at(6, 3), at(6, 6)];
    for r in 1..9 {
        for c in 1..9 {
            assert_eq!(b.wall_at(at(r, c)), pieces.contains(&at(r, c)), "cell {} {}", r, c);
        }
    }
}

#[test]
fn new_board_of_any_size_has_a_border_and_a_free_inside() {
    for size in 3..=20i8 {
        let b = Board::new(size, vec![Player { team: Team::White, pos: at(1, 1) }]);
        assert_eq!(b.size(), size);
        for r in 0..size {
            for c in 0..size {
                let border = r == 0 || c == 0 || r == size - 1 || c == size - 1;
                assert_eq!(b.wall_at(at(r, c)), border || (r == 1 && c == 1));
            }
        }
    }
}

#[test]
fn new_board_keeps_the_pieces_in_order() {
    let b = standard();
    assert_eq!(
        b.players(),
        &vec![
            Player { team: Team::White, pos: at(3, 3) },
            Player { team: Team::White, pos: at(3, 6) },
            Player { team: Team::Black, pos: at(6, 3) },
            Player { team: Team::Black, pos: at(6, 6) },
        ]
    );
    assert!(b.players().len() <= MAX_NUM_PLAYERS);
}

#[test]
fn the_largest_board_has_its_far_corner() {
    let b = Board::new(127, vec![Player { team: Team::White, pos: at(125, 125) }]);
    assert!(b.wall_at(at(126, 126)));
    assert!(b.wall_at(at(125, 125)));
    assert!(!b.wall_at(at(125, 124)));
    assert!(!b.wall_at(at(1, 1)));
}

#[test]
fn wall_set_marks_and_clears_one_cell() {
    let mut b = standard();
    assert!(!b.wall_at(at(4, 4)));
    b.wall_set(at(4, 4), true);
    assert!(b.wall_at(at(4, 4)));
    assert!(!b.wall_at(at(4, 5)));
    assert!(!b.wall_at(at(5, 4)));
    assert!(!b.wall_at(at(4, 3)));
    b.wall_set(at(4, 4), false);
    assert!(!b.wall_at(at(4, 4)));
}

#[test]
fn wall_set_leaves_every_other_cell_alone() {
    let before = standard();
    let mut b = standard();
    b.wall_set(at(5, 7), true);
    for r in 0..10 {
        for c in 0..10 {
            if (r, c) != (5, 7) {
                assert_eq!(b.wall_at(at(r, c)), before.wall_at(at(r, c)));
            }
        }
    }
    assert_eq!(b.players(), before.players());
}

#[test]
fn with_move_clears_the_origin_and_marks_destination_and_arrow() {
    let b = standard();
    let after = b.with_move(0, at(3, 4), at(5, 4));
    assert!(!after.wall_at(at(3, 3)));
    assert!(after.wall_at(at(3, 4)));
    assert!(after.wall_at(at(5, 4)));
    for r in 0..10 {
        for c in 0..10 {
            if ![(3, 3), (3, 4), (5, 4)].contains(&(r, c)) {
                assert_eq!(after.wall_at(at(r, c)), b.wall_at(at(r, c)));
            }
        }
    }
}

#[test]
fn with_move_moves_only_the_named_piece() {
    let b = standard();
    let after = b.with_move(2, at(5, 3), at(5, 8));
    assert_eq!(
        after.players(),
        &vec![
            Player { team: Team::White, pos: at(3, 3) },
            Player { team: Team::White, pos: at(3, 6) },
            Player { team: Team::Black, pos: at(5, 3) },
            Player { team: Team::Black, pos: at(6, 6) },
        ]
    );
}

#[test]
fn with_move_leaves_the_board_it_started_from_as_it_was() {
    let b = standard();
    let shown = b.pprint();
    let _after = b.with_move(1, at(1, 6), at(1, 1));
    assert_eq!(b.pprint(), shown);
    assert!(b.wall_at(at(3, 6)));
    assert!(!b.wall_at(at(1, 6)));
    assert!(!b.wall_at(at(1, 1)));
}

#[test]
fn an_arrow_shot_back_at_the_origin_obstructs_it() {
    let b = standard();
    let after = b.with_move(0, at(3, 4), at(3, 3));
    assert!(after.wall_at(at(3, 3)));
    assert!(after.wall_at(at(3, 4)));
    assert_eq!(after.players()[0].pos, at(3, 4));
}

#[test]
fn a_copy_of_a_board_is_equal_and_apart() {
    let b = standard();
    let mut c = b.clone();
    assert_eq!(c.pprint(), b.pprint());
    assert_eq!(c.players(), b.players());
    c.wall_set(at(4, 4), true);
    assert!(c.wall_at(at(4, 4)));
    assert!(!b.wall_at(at(4, 4)));
}

#[test]
fn find_piece_gives_the_number_of_the_piece_on_a_cell() {
    let b = standard();
    assert_eq!(b.find_piece(at(3, 3)), Some(0));
    assert_eq!(b.find_piece(at(6, 6)), Some(3));
    assert_eq!(b.find_piece(at(4, 4)), None);
    assert_eq!(b.find_piece(at(0, 0)), None);
}

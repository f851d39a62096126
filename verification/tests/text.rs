use amazons::board::Board;
use amazons::geometry::{Player, Pos, Team};
use amazons::movegen::MoveError;

fn at(row: i8, col: i8) -> Pos {
    Pos { row, col }
}

#[test]
fn reasons_read_as_sentences() {
    assert_eq!(MoveError::NotInLine.message(), "Moves not in a line!");
    assert_eq!(MoveError::ShotNotInLine.message(), "Shoot is not in a line!");
    assert_eq!(MoveError::NoPiece.message(), "You don't have a piece at the position");
    assert_eq!(MoveError::MoveBlocked(at(3, 6)).message(), "Can't move through piece at (3, 6)");
    assert_eq!(
        MoveError::ShotBlocked(at(0, 9)).message(),
        "Can't place token through piece at (0, 9)"
    );
    assert_eq!(MoveError::OutOfRange(at(10, 3)).message(), "Coord (10, 3) is outside the board");
}

#[test]
fn reasons_print_every_coordinate() {
    for n in [-128i8, -100, -99, -10, -9, -1, 0, 1, 9, 10, 99, 100, 127] {
        assert_eq!(
            MoveError::OutOfRange(at(n, 0)).message(),
            format!("Coord ({}, 0) is outside the board", n)
        );
        assert_eq!(
            MoveError::MoveBlocked(at(5, n)).message(),
            format!("Can't move through piece at (5, {})", n)
        );
    }
}

#[test]
fn picture_of_a_board_with_an_arrow() {
    let mut b = Board::new(
        5,
        vec![
            Player { team: Team::White, pos: at(1, 1) },
            Player { team: Team::Black, pos: at(3, 3) },
        ],
    );
    b.wall_set(at(2, 2), true);
    assert_eq!(b.pprint(), "#####\n#W..#\n#.#.#\n#..B#\n#####\n");
}

#[test]
fn picture_shows_a_piece_on_an_unmarked_cell_in_lower_case() {
    let mut b = Board::new(
        5,
        vec![
            Player { team: Team::White, pos: at(1, 1) },
            Player { team: Team::Black, pos: at(3, 3) },
        ],
    );
    b.wall_set(at(1, 1), false);
    b.wall_set(at(3, 3), false);
    assert_eq!(b.pprint(), "#####\n#w..#\n#...#\n#..b#\n#####\n");
}

#[test]
fn picture_of_the_smallest_boards() {
    let b = Board::new(3, vec![Player { team: Team::Black, pos: at(1, 1) }]);
    assert_eq!(b.pprint(), "###\n#B#\n###\n");
}

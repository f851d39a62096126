use amazons::geometry::{compass_dir, Move, Player, Pos, Team};

fn at(row: i8, col: i8) -> Pos {
    Pos { row, col }
}

#[test]
fn teams_lists_white_then_black() {
    assert_eq!(Team::teams(), vec![Team::White, Team::Black]);
}

#[test]
fn other_swaps_the_sides() {
    assert_eq!(Team::White.other(), Team::Black);
    assert_eq!(Team::Black.other(), Team::White);
}

#[test]
fn other_is_its_own_inverse() {
    for t in Team::teams() {
        assert_eq!(t.other().other(), t);
        assert_ne!(t.other(), t);
    }
}

#[test]
fn cells_in_a_row_a_column_or_a_diagonal_are_in_a_line() {
    assert!(at(3, 3).in_a_line_with(at(3, 7)));
    assert!(at(3, 3).in_a_line_with(at(8, 3)));
    assert!(at(3, 3).in_a_line_with(at(6, 6)));
    assert!(at(3, 3).in_a_line_with(at(1, 5)));
    assert!(at(3, 3).in_a_line_with(at(3, 3)));
}

#[test]
fn a_knight_jump_is_not_in_a_line() {
    assert!(!at(3, 3).in_a_line_with(at(4, 5)));
    assert!(!at(3, 3).in_a_line_with(at(1, 4)));
    assert!(!at(1, 1).in_a_line_with(at(8, 7)));
}

#[test]
fn in_a_line_with_takes_the_extremes_of_the_coordinate_type() {
    assert!(at(-128, -128).in_a_line_with(at(127, 127)));
    assert!(at(-128, 0).in_a_line_with(at(127, 0)));
    assert!(!at(-128, 0).in_a_line_with(at(127, 1)));
}

#[test]
fn taxicab_distance_adds_the_two_gaps() {
    assert_eq!(at(3, 3).dist_manhatten(at(6, 1)), 5);
    assert_eq!(at(6, 1).dist_manhatten(at(3, 3)), 5);
    assert_eq!(at(2, 2).dist_manhatten(at(2, 2)), 0);
    assert_eq!(at(-128, -128).dist_manhatten(at(127, 127)), 510);
}

#[test]
fn along_line_walks_a_diagonal_up_to_the_target() {
    assert_eq!(at(3, 3).along_line(at(6, 6)), vec![at(4, 4), at(5, 5), at(6, 6)]);
    assert_eq!(at(3, 3).along_line(at(1, 5)), vec![at(2, 4), at(1, 5)]);
}

#[test]
fn along_line_walks_rows_and_columns() {
    assert_eq!(at(3, 3).along_line(at(3, 1)), vec![at(3, 2), at(3, 1)]);
    assert_eq!(at(3, 3).along_line(at(5, 3)), vec![at(4, 3), at(5, 3)]);
}

#[test]
fn along_line_to_the_same_cell_is_empty() {
    assert_eq!(at(4, 4).along_line(at(4, 4)), Vec::<Pos>::new());
}

#[test]
fn along_line_off_a_line_goes_diagonal_first_then_straight() {
    assert_eq!(at(1, 1).along_line(at(2, 4)), vec![at(2, 2), at(2, 3), at(2, 4)]);
}

#[test]
fn to_linear_counts_row_by_row() {
    assert_eq!(at(0, 0).to_linear(10), 0);
    assert_eq!(at(3, 6).to_linear(10), 36);
    assert_eq!(at(9, 9).to_linear(10), 99);
    assert_eq!(at(126, 126).to_linear(127), 126 * 127 + 126);
}

#[test]
fn with_offset_steps_in_a_direction() {
    assert_eq!(at(3, 3).with_offset((-1, 1), 2), at(1, 5));
    assert_eq!(at(3, 3).with_offset((1, 0), 4), at(7, 3));
    assert_eq!(at(3, 3).with_offset((0, -1), 0), at(3, 3));
}

#[test]
fn compass_has_eight_directions_in_scanning_order() {
    let dirs: Vec<(i8, i8)> = (0..8).map(compass_dir).collect();
    assert_eq!(
        dirs,
        vec![(-1, -1), (-1, 0), (-1, 1), (0, -1), (0, 1), (1, -1), (1, 0), (1, 1)]
    );
}

#[test]
fn a_move_names_piece_destination_and_arrow() {
    let m = Move {
        player: Player { team: Team::Black, pos: at(6, 3) },
        new_pos: at(5, 3),
        new_shot: at(5, 8),
    };
    assert_eq!(m.player.pos, at(6, 3));
    assert_eq!(m.new_pos, at(5, 3));
    assert_eq!(m.new_shot, at(5, 8));
    assert_eq!(m, m.clone());
}

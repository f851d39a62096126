use amazons::board::Board;
use amazons::distance::{EvalStrategy, UNREACHED};
use amazons::evaluate::{score_fields, DistState, LOSS, WIN};
use amazons::geometry::{Player, Pos, Team};
use std::collections::VecDeque;

fn at(row: i8, col: i8) -> Pos {
    Pos { row, col }
}

fn corners(size: i8, arrows: &[(i8, i8)]) -> Board {
    let mut b = Board::new(
        size,
        vec![
            Player { team: Team::White, pos: at(1, 1) },
            Player { team: Team::Black, pos: at(size - 2, size - 2) },
        ],
    );
    for &(r, c) in arrows {
        b.wall_set(at(r, c), true);
    }
    b
}

fn field(b: &Board, team: Team, strategy: EvalStrategy) -> Vec<u8> {
    let mut next = VecDeque::new();
    let mut dist = Vec::new();
    b.bfs(team, strategy, &mut next, &mut dist);
    assert!(next.is_empty());
    dist
}

#[test]
fn sentinels_are_the_extremes_with_room_to_negate() {
    assert_eq!(WIN, i64::MAX);
    assert_eq!(LOSS, i64::MIN + 1);
    assert_eq!(-WIN, LOSS);
    assert_eq!(-LOSS, WIN);
    assert_eq!(UNREACHED, u8::MAX);
}

#[test]
fn queen_distances_on_the_blocked_diagonal() {
    let b = corners(5, &[(2, 2)]);
    let x = 255;
    assert_eq!(
        field(&b, Team::White, EvalStrategy::QueenDistance),
        vec![x, x, x, x, x, x, x, 1, 1, x, x, 1, x, 2, x, x, 1, 2, x, x, x, x, x, x, x]
    );
    assert_eq!(
        field(&b, Team::Black, EvalStrategy::QueenDistance),
        vec![x, x, x, x, x, x, x, 2, 1, x, x, 2, x, 1, x, x, 1, 1, x, x, x, x, x, x, x]
    );
}

#[test]
fn king_distances_on_the_blocked_diagonal() {
    let b = corners(5, &[(2, 2)]);
    let x = 255;
    assert_eq!(
        field(&b, Team::White, EvalStrategy::KingDistance),
        vec![x, x, x, x, x, x, x, 1, 2, x, x, 1, x, 2, x, x, 2, 2, x, x, x, x, x, x, x]
    );
}

#[test]
fn pieces_and_walls_stay_at_the_unreached_mark() {
    let b = corners(5, &[(2, 2)]);
    let d = field(&b, Team::White, EvalStrategy::QueenDistance);
    assert_eq!(d[6], 255);
    assert_eq!(d[12], 255);
    assert_eq!(d[18], 255);
    assert_eq!(d[0], 255);
}

#[test]
fn king_distances_at_the_standard_opening() {
    let b = Board::new(
        10,
        vec![
            Player { team: Team::White, pos: at(3, 3) },
            Player { team: Team::White, pos: at(3, 6) },
            Player { team: Team::Black, pos: at(6, 3) },
            Player { team: Team::Black, pos: at(6, 6) },
        ],
    );
    let x = 255;
    assert_eq!(
        field(&b, Team::White, EvalStrategy::KingDistance),
        vec![
            x, x, x, x, x, x, x, x, x, x, //
            x, 2, 2, 2, 2, 2, 2, 2, 2, x, //
            x, 2, 1, 1, 1, 1, 1, 1, 2, x, //
            x, 2, 1, x, 1, 1, x, 1, 2, x, //
            x, 2, 1, 1, 1, 1, 1, 1, 2, x, //
            x, 2, 2, 2, 2, 2, 2, 2, 2, x, //
            x, 3, 3, x, 3, 3, x, 3, 3, x, //
            x, 4, 4, 4, 4, 4, 4, 4, 4, x, //
            x, 5, 5, 5, 5, 5, 5, 5, 5, x, //
            x, x, x, x, x, x, x, x, x, x,
        ]
    );
    assert_eq!(
        field(&b, Team::White, EvalStrategy::QueenDistance),
        vec![
            x, x, x, x, x, x, x, x, x, x, //
            x, 1, 2, 1, 1, 1, 1, 2, 1, x, //
            x, 2, 1, 1, 1, 1, 1, 1, 2, x, //
            x, 1, 1, x, 1, 1, x, 1, 1, x, //
            x, 2, 1, 1, 1, 1, 1, 1, 2, x, //
            x, 1, 2, 1, 1, 1, 1, 2, 1, x, //
            x, 2, 2, x, 2, 2, x, 2, 2, x, //
            x, 2, 2, 2, 2, 2, 2, 2, 2, x, //
            x, 2, 2, 2, 2, 2, 2, 2, 2, x, //
            x, x, x, x, x, x, x, x, x, x,
        ]
    );
}

#[test]
fn distances_stop_counting_below_the_unreached_mark() {
    // A corridor of one cell's width that winds through three long rows.
    let size: i8 = 127;
    let mut b = corners(size, &[]);
    for r in 1..126 {
        for c in 1..126 {
            if (r, c) == (1, 1) || (r, c) == (125, 125) {
                continue;
            }
            let free = r == 1 || r == 3 || r == 5 || (r == 2 && c == 125) || (r == 4 && c == 1);
            if !free {
                b.wall_set(at(r, c), true);
            }
        }
    }
    let d = field(&b, Team::White, EvalStrategy::KingDistance);
    let of = |r: usize, c: usize| d[r * 127 + c];
    assert_eq!(of(1, 2), 1);
    assert_eq!(of(1, 125), 124);
    assert_eq!(of(3, 1), 248);
    assert_eq!(of(5, 6), 253);
    assert_eq!(of(5, 7), 254);
    assert_eq!(of(5, 8), 255);
    assert_eq!(of(5, 9), 255);
    assert_eq!(of(5, 125), 255);
    let q = field(&b, Team::White, EvalStrategy::QueenDistance);
    assert_eq!(q[1 * 127 + 125], 1);
    assert_eq!(q[3 * 127 + 1], 3);
    assert_eq!(q[5 * 127 + 125], 5);
}

#[test]
fn bfs_resets_buffers_of_any_length() {
    let b = corners(5, &[(2, 2)]);
    let mut next = VecDeque::new();
    next.push_back((at(2, 3), 7u8));
    let mut dist = vec![3u8; 400];
    b.bfs(Team::White, EvalStrategy::QueenDistance, &mut next, &mut dist);
    assert_eq!(dist, field(&b, Team::White, EvalStrategy::QueenDistance));
    assert_eq!(dist.len(), 25);
    assert!(next.is_empty());
}

#[test]
fn score_counts_one_for_each_closer_cell_and_nothing_for_a_tie() {
    let left = vec![1, 2, 3, 255, 4];
    let right = vec![2, 2, 1, 9, 255];
    // +1, 0, -1, -1, +1; the first cell is reached by both.
    assert_eq!(score_fields(&left, &right), 0);
    assert_eq!(score_fields(&vec![1, 1, 1, 5], &vec![2, 2, 2, 5]), 3);
    assert_eq!(score_fields(&vec![2, 2, 2, 5], &vec![1, 1, 1, 5]), -3);
}

#[test]
fn score_of_separate_territories_is_a_sentinel() {
    let x = 255;
    assert_eq!(score_fields(&vec![1, 2, x, x, x], &vec![x, x, 1, x, x]), WIN);
    assert_eq!(score_fields(&vec![x, x, 1, x, x], &vec![1, 2, x, x, x]), LOSS);
}

#[test]
fn score_of_separate_territories_of_equal_size_is_a_win_for_both() {
    let x = 255;
    assert_eq!(score_fields(&vec![1, x, x], &vec![x, 1, x]), WIN);
    assert_eq!(score_fields(&vec![x, 1, x], &vec![1, x, x]), WIN);
    assert_eq!(score_fields(&vec![], &vec![]), WIN);
    assert_eq!(score_fields(&vec![x, x], &vec![x, x]), WIN);
}

#[test]
fn swapping_the_fields_negates_the_score() {
    let x = 255;
    let fields: Vec<(Vec<u8>, Vec<u8>)> = vec![
        (vec![1, 2, 3, x, 4], vec![2, 2, 1, 9, x]),
        (vec![1, 1, 1, 5], vec![2, 2, 2, 5]),
        (vec![1, 2, x, x, x], vec![x, x, 1, x, x]),
        (vec![x, 7, 7, 1], vec![3, x, 7, 2]),
    ];
    for (l, r) in fields {
        assert_eq!(score_fields(&r, &l), -score_fields(&l, &r));
    }
}

#[test]
fn evaluate_at_the_symmetric_opening_is_even() {
    let b = corners(5, &[(2, 2)]);
    let mut cache = DistState::new();
    for s in [EvalStrategy::QueenDistance, EvalStrategy::KingDistance] {
        assert_eq!(b.evaluate(Team::White, s, &mut cache), 0);
        assert_eq!(b.evaluate(Team::Black, s, &mut cache), 0);
    }
}

#[test]
fn evaluate_counts_territory() {
    let b = Board::new(
        7,
        vec![
            Player { team: Team::White, pos: at(2, 2) },
            Player { team: Team::White, pos: at(2, 4) },
            Player { team: Team::Black, pos: at(4, 2) },
            Player { team: Team::Black, pos: at(4, 4) },
        ],
    );
    let after = b.with_move(0, at(3, 3), at(3, 2));
    let mut cache = DistState::with_board_size(7);
    assert_eq!(after.evaluate(Team::White, EvalStrategy::QueenDistance, &mut cache), 1);
    assert_eq!(after.evaluate(Team::Black, EvalStrategy::QueenDistance, &mut cache), -1);
    assert_eq!(after.evaluate(Team::White, EvalStrategy::KingDistance, &mut cache), 0);
    assert_eq!(after.evaluate(Team::Black, EvalStrategy::KingDistance, &mut cache), 0);
}

#[test]
fn evaluate_is_antisymmetric_over_the_opening_moves() {
    let b = Board::new(
        7,
        vec![
            Player { team: Team::White, pos: at(2, 2) },
            Player { team: Team::White, pos: at(2, 4) },
            Player { team: Team::Black, pos: at(4, 2) },
            Player { team: Team::Black, pos: at(4, 4) },
        ],
    );
    let mut cache = DistState::new();
    for s in b.successors(Team::White) {
        for strategy in [EvalStrategy::QueenDistance, EvalStrategy::KingDistance] {
            let w = s.evaluate(Team::White, strategy, &mut cache);
            let k = s.evaluate(Team::Black, strategy, &mut cache);
            assert_eq!(k, -w);
        }
    }
}

#[test]
fn evaluate_of_a_walled_in_side_is_the_losing_score() {
    let b = corners(5, &[(1, 2), (2, 1), (2, 2)]);
    let mut cache = DistState::new();
    assert_eq!(b.evaluate(Team::White, EvalStrategy::QueenDistance, &mut cache), LOSS);
    assert_eq!(b.evaluate(Team::Black, EvalStrategy::QueenDistance, &mut cache), WIN);
    assert_eq!(b.evaluate(Team::White, EvalStrategy::KingDistance, &mut cache), LOSS);
    assert_eq!(b.evaluate(Team::Black, EvalStrategy::KingDistance, &mut cache), WIN);
}

#[test]
fn evaluate_of_the_larger_separate_territory_is_the_winning_score() {
    let b = corners(6, &[(3, 1), (3, 2), (3, 3), (3, 4)]);
    let mut cache = DistState::new();
    assert_eq!(b.evaluate(Team::White, EvalStrategy::QueenDistance, &mut cache), WIN);
    assert_eq!(b.evaluate(Team::Black, EvalStrategy::QueenDistance, &mut cache), LOSS);
    assert_eq!(b.evaluate(Team::White, EvalStrategy::KingDistance, &mut cache), WIN);
}

#[test]
fn evaluate_of_equal_separate_territories_is_the_winning_score_for_both() {
    let b = corners(5, &[(2, 1), (2, 2), (2, 3)]);
    let mut cache = DistState::new();
    assert_eq!(b.evaluate(Team::White, EvalStrategy::QueenDistance, &mut cache), WIN);
    assert_eq!(b.evaluate(Team::Black, EvalStrategy::QueenDistance, &mut cache), WIN);
}

#[test]
fn evaluate_works_with_scratch_space_of_another_size() {
    let b = corners(5, &[(2, 2)]);
    let after = b.with_move(0, at(1, 2), at(1, 1));
    let mut small = DistState::with_board_size(0);
    let mut large = DistState::with_board_size(30);
    let mut fresh = DistState::new();
    let want = after.evaluate(Team::White, EvalStrategy::QueenDistance, &mut fresh);
    assert_eq!(after.evaluate(Team::White, EvalStrategy::QueenDistance, &mut small), want);
    assert_eq!(after.evaluate(Team::White, EvalStrategy::QueenDistance, &mut large), want);
}

#[test]
fn a_copy_of_scratch_space_serves_as_well() {
    let b = corners(6, &[(3, 1), (3, 2), (3, 3), (3, 4)]);
    let mut first = DistState::with_board_size(6);
    let want = b.evaluate(Team::Black, EvalStrategy::KingDistance, &mut first);
    let mut second = first.clone();
    assert_eq!(b.evaluate(Team::Black, EvalStrategy::KingDistance, &mut second), want);
    assert_eq!(want, LOSS);
}

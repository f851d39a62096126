use amazons::board::Board;
use amazons::distance::EvalStrategy;
use amazons::evaluate::{DistState, LOSS, WIN};
use amazons::geometry::{Player, Pos, Team};
use amazons::search::{leaf_move, max_move};
use amazons::shortlist::{top_n, SEARCH_WIDTH};

fn at(row: i8, col: i8) -> Pos {
    Pos { row, col }
}

fn small() -> Board {
    Board::new(
        7,
        vec![
            Player { team: Team::White, pos: at(2, 2) },
            Player { team: Team::White, pos: at(2, 4) },
            Player { team: Team::Black, pos: at(4, 2) },
            Player { team: Team::Black, pos: at(4, 4) },
        ],
    )
}

fn corners(arrows: &[(i8, i8)]) -> Board {
    let mut b = Board::new(
        5,
        vec![
            Player { team: Team::White, pos: at(1, 1) },
            Player { team: Team::Black, pos: at(3, 3) },
        ],
    );
    for &(r, c) in arrows {
        b.wall_set(at(r, c), true);
    }
    b
}

const QUEEN: EvalStrategy = EvalStrategy::QueenDistance;

#[test]
fn top_n_keeps_the_best_in_order() {
    assert_eq!(top_n(&vec![5, 3, 5, 9, 1, 3], 3).items(), vec![(9, 3), (5, 0), (5, 2)]);
    assert_eq!(
        top_n(&vec![2, 7, 7, 1], 14).items(),
        vec![(7, 1), (7, 2), (2, 0), (1, 3)]
    );
}

#[test]
fn top_n_ranks_equal_scores_by_arrival() {
    assert_eq!(top_n(&vec![1, 1, 1], 2).items(), vec![(1, 0), (1, 1)]);
    assert_eq!(
        top_n(&vec![4, 4, 4, 4, 4], 5).items(),
        vec![(4, 0), (4, 1), (4, 2), (4, 3), (4, 4)]
    );
}

#[test]
fn top_n_of_nothing_or_with_no_room_is_empty() {
    assert_eq!(top_n(&vec![], 14).items(), vec![]);
    assert_eq!(top_n(&vec![3, 1, 2], 0).items(), vec![]);
}

#[test]
fn top_n_holds_up_to_the_search_width_and_beyond() {
    let scores: Vec<i64> = (0..40).map(|k| (k * 7) % 11).collect();
    let best = top_n(&scores, SEARCH_WIDTH).items();
    assert_eq!(best.len(), 14);
    let mut want: Vec<(i64, usize)> = scores.iter().cloned().zip(0..).map(|(s, i)| (s, i)).collect();
    want.sort_by(|a, b| b.0.cmp(&a.0).then(a.1.cmp(&b.1)));
    want.truncate(14);
    assert_eq!(best, want);
    let wide = top_n(&scores, 30).items();
    assert_eq!(wide.len(), 30);
    for pair in wide.windows(2) {
        assert!(pair[0].0 > pair[1].0 || (pair[0].0 == pair[1].0 && pair[0].1 < pair[1].1));
    }
}

#[test]
fn top_n_takes_the_extreme_scores() {
    assert_eq!(
        top_n(&vec![LOSS, WIN, 0, i64::MIN], 3).items(),
        vec![(WIN, 1), (0, 2), (LOSS, 0)]
    );
}

#[test]
fn leaf_move_at_the_small_opening() {
    let b = small();
    let mut cache = DistState::new();
    let (found, score) = leaf_move(&b, Team::White, QUEEN, &mut cache);
    let found = found.unwrap();
    assert_eq!(score, 3);
    assert_eq!(found.pprint(), "#######\n#.....#\n#.W...#\n#..#W.#\n#.B.B.#\n#.....#\n#######\n");
    assert_eq!(found.players()[1].pos, at(3, 4));
    let (found, score) = leaf_move(&b, Team::Black, QUEEN, &mut cache);
    assert_eq!(score, 3);
    assert_eq!(
        found.unwrap().pprint(),
        "#######\n#.....#\n#.W.W.#\n#.....#\n#.B.#B#\n#.....#\n#######\n"
    );
}

#[test]
fn depth_one_is_the_leaf_move() {
    let b = corners(&[(2, 2)]);
    let mut cache = DistState::new();
    for depth in [1, 0, -3] {
        let (found, score) = max_move(&b, Team::White, QUEEN, depth, &mut cache);
        assert_eq!(score, 1);
        assert_eq!(found.unwrap().pprint(), "#####\n#...#\n#W#.#\n#.#B#\n#####\n");
    }
    let (found, score) = max_move(&b, Team::Black, QUEEN, 1, &mut cache);
    assert_eq!(score, 1);
    assert_eq!(found.unwrap().pprint(), "#####\n#W..#\n###.#\n#.B.#\n#####\n");
}

#[test]
fn depth_one_picks_a_successor_that_is_worst_for_the_opponent() {
    let b = small();
    let mut cache = DistState::new();
    let (found, score) = max_move(&b, Team::White, QUEEN, 1, &mut cache);
    let found = found.unwrap();
    let all = b.successors(Team::White);
    assert!(all.iter().any(|s| s.pprint() == found.pprint() && s.players() == found.players()));
    let mut lowest_for_mover = WIN;
    for s in &all {
        let theirs = s.evaluate(Team::Black, QUEEN, &mut cache);
        assert!(-theirs <= score);
        let ours = s.evaluate(Team::White, QUEEN, &mut cache);
        if ours < lowest_for_mover {
            lowest_for_mover = ours;
        }
    }
    assert!(found.evaluate(Team::White, QUEEN, &mut cache) >= lowest_for_mover);
    assert_eq!(-found.evaluate(Team::Black, QUEEN, &mut cache), score);
}

#[test]
fn no_move_comes_with_the_losing_score() {
    let b = corners(&[(1, 2), (2, 1), (2, 2)]);
    let mut cache = DistState::new();
    for depth in [1, 2, 3] {
        let (found, score) = max_move(&b, Team::White, QUEEN, depth, &mut cache);
        assert!(found.is_none());
        assert_eq!(score, LOSS);
        assert_eq!(score, i64::MIN + 1);
    }
    assert!(b.successors(Team::White).is_empty());
    let (found, _) = max_move(&b, Team::Black, QUEEN, 2, &mut cache);
    assert!(found.is_some());
}

#[test]
fn deeper_search_on_the_blocked_diagonal() {
    let b = corners(&[(2, 2)]);
    let mut cache = DistState::new();
    let (found, score) = max_move(&b, Team::White, QUEEN, 2, &mut cache);
    assert_eq!(score, -1);
    assert_eq!(found.unwrap().pprint(), "#####\n#.W.#\n#.###\n#..B#\n#####\n");
    let (found, score) = max_move(&b, Team::Black, QUEEN, 2, &mut cache);
    assert_eq!(score, -1);
    assert_eq!(found.unwrap().pprint(), "#####\n#W#.#\n#.#B#\n#...#\n#####\n");
    let (found, score) = max_move(&b, Team::White, QUEEN, 3, &mut cache);
    assert_eq!(score, 0);
    assert_eq!(found.unwrap().pprint(), "#####\n#.W##\n#.#.#\n#..B#\n#####\n");
    let (found, score) = max_move(&b, Team::White, QUEEN, 4, &mut cache);
    assert_eq!(score, 1);
    assert_eq!(found.unwrap().pprint(), "#####\n#.W##\n#.#.#\n#..B#\n#####\n");
}

#[test]
fn search_of_depth_two_at_the_small_opening() {
    let b = small();
    let mut cache = DistState::with_board_size(7);
    let (found, score) = max_move(&b, Team::White, QUEEN, 2, &mut cache);
    let found = found.unwrap();
    assert_eq!(score, -1);
    assert_eq!(found.pprint(), "#######\n#.....#\n#...W.#\n#.W#..#\n#.B.B.#\n#.....#\n#######\n");
    assert_eq!(found.players()[0].pos, at(3, 2));
}

#[test]
fn a_lost_position_still_yields_a_move() {
    // Every reply to the only move leaves White without one.
    let b = corners(&[(1, 2), (2, 2), (3, 1), (3, 2)]);
    let mut cache = DistState::new();
    let (found, score) = max_move(&b, Team::White, QUEEN, 2, &mut cache);
    assert_eq!(score, LOSS);
    assert_eq!(found.unwrap().pprint(), "#####\n###.#\n#W#.#\n###B#\n#####\n");
}

#[test]
fn search_leaves_the_board_as_it_was() {
    let b = corners(&[(2, 2)]);
    let shown = b.pprint();
    let mut cache = DistState::new();
    let _ = max_move(&b, Team::White, EvalStrategy::KingDistance, 3, &mut cache);
    assert_eq!(b.pprint(), shown);
}

use amazons::distance::EvalStrategy;
use amazons::geometry::{Pos, Team};
use amazons::session::Amazons;

fn at(row: i8, col: i8) -> Pos {
    Pos { row, col }
}

const QUEEN: EvalStrategy = EvalStrategy::QueenDistance;

#[test]
fn new_games_start_from_their_openings() {
    let g = Amazons::new_8x8();
    assert_eq!(
        g.curr_board().pprint(),
        "##########\n#........#\n#........#\n#..W..W..#\n#........#\n#........#\n#..B..B..#\n#........#\n#........#\n##########\n"
    );
    let g = Amazons::new_5x5();
    assert_eq!(
        g.curr_board().pprint(),
        "#######\n#.....#\n#.W.W.#\n#.....#\n#.B.B.#\n#.....#\n#######\n"
    );
    assert_eq!(g.curr_board().size(), 7);
}

#[test]
fn team_pieces_lists_the_cells_of_one_side() {
    let g = Amazons::new_8x8();
    assert_eq!(g.team_pieces(Team::White), vec![at(3, 3), at(3, 6)]);
    assert_eq!(g.team_pieces(Team::Black), vec![at(6, 3), at(6, 6)]);
}

#[test]
fn player_move_plays_a_legal_move() {
    let mut g = Amazons::new_8x8();
    assert_eq!(g.player_move(Team::White, at(3, 3), at(4, 4), at(4, 8)), Ok(()));
    assert_eq!(g.team_pieces(Team::White), vec![at(4, 4), at(3, 6)]);
    assert!(g.curr_board().wall_at(at(4, 8)));
    assert!(!g.curr_board().wall_at(at(3, 3)));
    assert_eq!(g.nth_last_board(1).pprint(), Amazons::new_8x8().curr_board().pprint());
}

#[test]
fn player_move_turns_down_the_other_sides_piece() {
    let mut g = Amazons::new_8x8();
    let before = g.curr_board().pprint();
    assert_eq!(
        g.player_move(Team::White, at(6, 3), at(5, 3), at(4, 3)),
        Err(String::from("You don't have a piece at the position"))
    );
    assert_eq!(g.curr_board().pprint(), before);
    assert_eq!(g.player_move(Team::Black, at(6, 3), at(5, 3), at(4, 3)), Ok(()));
}

#[test]
fn player_move_gives_each_reason_in_words() {
    let mut g = Amazons::new_8x8();
    let before = g.curr_board().pprint();
    assert_eq!(
        g.player_move(Team::White, at(3, 3), at(3, 10), at(3, 4)),
        Err(String::from("Coord (3, 10) is outside the board"))
    );
    assert_eq!(
        g.player_move(Team::White, at(-1, 3), at(3, 3), at(3, 4)),
        Err(String::from("Coord (-1, 3) is outside the board"))
    );
    assert_eq!(
        g.player_move(Team::White, at(3, 3), at(4, 5), at(3, 4)),
        Err(String::from("Moves not in a line!"))
    );
    assert_eq!(
        g.player_move(Team::White, at(3, 3), at(3, 4), at(5, 5)),
        Err(String::from("Shoot is not in a line!"))
    );
    assert_eq!(
        g.player_move(Team::White, at(3, 3), at(3, 7), at(3, 8)),
        Err(String::from("Can't move through piece at (3, 6)"))
    );
    assert_eq!(
        g.player_move(Team::White, at(3, 3), at(3, 4), at(3, 8)),
        Err(String::from("Can't place token through piece at (3, 6)"))
    );
    assert_eq!(
        g.player_move(Team::White, at(4, 4), at(4, 5), at(4, 6)),
        Err(String::from("You don't have a piece at the position"))
    );
    assert_eq!(g.curr_board().pprint(), before);
    assert_eq!(g.nth_last_board(5).pprint(), before);
}

#[test]
fn undo_with_one_board_changes_nothing() {
    let mut g = Amazons::new_5x5();
    let before = g.curr_board().pprint();
    g.undo_2_move();
    assert_eq!(g.curr_board().pprint(), before);
    assert_eq!(g.nth_last_board(0).pprint(), before);
}

#[test]
fn undo_with_two_boards_changes_nothing() {
    let mut g = Amazons::new_5x5();
    g.player_move(Team::White, at(2, 2), at(3, 3), at(3, 2)).unwrap();
    let first = g.nth_last_board(1).pprint();
    let second = g.curr_board().pprint();
    g.undo_2_move();
    assert_eq!(g.curr_board().pprint(), second);
    assert_eq!(g.nth_last_board(1).pprint(), first);
    assert_ne!(first, second);
}

#[test]
fn undo_with_three_boards_goes_back_to_the_first() {
    let mut g = Amazons::new_5x5();
    let opening = g.curr_board().pprint();
    let pieces = g.curr_board().players().clone();
    g.player_move(Team::White, at(2, 2), at(3, 3), at(3, 2)).unwrap();
    g.player_move(Team::Black, at(4, 4), at(5, 5), at(5, 1)).unwrap();
    assert_ne!(g.curr_board().pprint(), opening);
    g.undo_2_move();
    assert_eq!(g.curr_board().pprint(), opening);
    assert_eq!(g.curr_board().players(), &pieces);
    assert_eq!(g.nth_last_board(1).pprint(), opening);
    g.undo_2_move();
    assert_eq!(g.curr_board().pprint(), opening);
}

#[test]
fn undo_takes_back_exactly_two_moves() {
    let mut g = Amazons::new_5x5();
    g.player_move(Team::White, at(2, 2), at(3, 3), at(3, 2)).unwrap();
    let after_one = g.curr_board().pprint();
    g.player_move(Team::Black, at(4, 4), at(5, 5), at(5, 1)).unwrap();
    g.player_move(Team::White, at(2, 4), at(1, 5), at(1, 1)).unwrap();
    g.undo_2_move();
    assert_eq!(g.curr_board().pprint(), after_one);
    assert_eq!(g.nth_last_board(1).pprint(), Amazons::new_5x5().curr_board().pprint());
    assert_eq!(g.nth_last_board(2).pprint(), Amazons::new_5x5().curr_board().pprint());
}

#[test]
fn nth_last_board_stops_at_the_opening() {
    let mut g = Amazons::new_5x5();
    let opening = g.curr_board().pprint();
    g.player_move(Team::White, at(2, 2), at(3, 3), at(3, 2)).unwrap();
    assert_eq!(g.nth_last_board(0).pprint(), g.curr_board().pprint());
    assert_eq!(g.nth_last_board(1).pprint(), opening);
    assert_eq!(g.nth_last_board(2).pprint(), opening);
    assert_eq!(g.nth_last_board(usize::MAX).pprint(), opening);
}

#[test]
fn ai_move_plays_the_move_of_the_search() {
    let mut g = Amazons::new_5x5();
    assert!(g.ai_move(Team::White, QUEEN, 2));
    assert_eq!(
        g.curr_board().pprint(),
        "#######\n#.....#\n#...W.#\n#.W#..#\n#.B.B.#\n#.....#\n#######\n"
    );
    assert!(g.ai_move(Team::Black, QUEEN, 2));
    assert_eq!(
        g.curr_board().pprint(),
        "#######\n#.....#\n#...W.#\n#.W#B.#\n#.B#..#\n#.....#\n#######\n"
    );
    assert!(g.ai_move(Team::White, QUEEN, 2));
    assert_eq!(
        g.curr_board().pprint(),
        "#######\n#..#..#\n#.....#\n#.W#BW#\n#.B#..#\n#.....#\n#######\n"
    );
    g.undo_2_move();
    assert_eq!(
        g.curr_board().pprint(),
        "#######\n#.....#\n#...W.#\n#.W#..#\n#.B.B.#\n#.....#\n#######\n"
    );
}

#[test]
fn ai_move_gives_up_without_a_move() {
    let mut g = Amazons::new_5x5();
    let moves = [
        (Team::White, (2, 2), (3, 2), (2, 1)),
        (Team::Black, (4, 4), (4, 5), (1, 2)),
        (Team::White, (3, 2), (3, 1), (3, 4)),
        (Team::Black, (4, 5), (4, 3), (3, 2)),
        (Team::White, (2, 4), (2, 5), (5, 5)),
        (Team::Black, (4, 3), (1, 3), (2, 4)),
        (Team::White, (2, 5), (4, 5), (2, 5)),
        (Team::Black, (4, 2), (5, 3), (5, 4)),
        (Team::White, (4, 5), (4, 4), (4, 5)),
        (Team::Black, (5, 3), (2, 3), (1, 4)),
        (Team::White, (4, 4), (3, 3), (2, 2)),
    ];
    for (team, p, m, s) in moves {
        assert_eq!(g.player_move(team, at(p.0, p.1), at(m.0, m.1), at(s.0, s.1)), Ok(()));
    }
    let before = g.curr_board().pprint();
    assert_eq!(before, "#######\n#.#B#.#\n###B###\n#W#W#.#\n#....##\n#...###\n#######\n");
    assert!(g.curr_board().successors(Team::Black).is_empty());
    for depth in [1, 2, 3] {
        assert!(!g.ai_move(Team::Black, QUEEN, depth));
        assert_eq!(g.curr_board().pprint(), before);
    }
    assert_eq!(g.curr_board().successors(Team::White).len(), 56);
    assert!(g.ai_move(Team::White, QUEEN, 1));
    assert_ne!(g.curr_board().pprint(), before);
    assert_eq!(g.nth_last_board(1).pprint(), before);
}

#[test]
fn evaluate_looks_back_in_the_game() {
    let mut g = Amazons::new_5x5();
    assert_eq!(g.evaluate(0, Team::White, QUEEN), 0);
    g.player_move(Team::White, at(2, 2), at(3, 3), at(3, 2)).unwrap();
    assert_eq!(g.evaluate(0, Team::White, QUEEN), 1);
    assert_eq!(g.evaluate(0, Team::Black, QUEEN), -1);
    assert_eq!(g.evaluate(0, Team::White, EvalStrategy::KingDistance), 0);
    assert_eq!(g.evaluate(1, Team::White, QUEEN), 0);
    assert_eq!(g.evaluate(7, Team::White, QUEEN), 0);
}

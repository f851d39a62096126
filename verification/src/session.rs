//! A game in progress: the boards played so far, moves by a player and by
//! the search, and taking moves back.

use crate::board::{Board, BoardView};
use crate::distance::EvalStrategy;
use crate::evaluate::DistState;
use crate::geometry::{Player, Pos, Team};
use crate::movegen::{views, MoveError};
use crate::search::max_move;
use vstd::prelude::*;

verus! {

/// The verdict on a player's move: that of the board's own check, and
/// besides the piece on the origin must belong to `team`.
pub open spec fn player_verdict(v: BoardView, team: Team, pos: Pos, mv: Pos, shot: Pos) -> Result<
    BoardView,
    MoveError,
> {
    match v.check_move(pos, mv, shot) {
        Err(e) => Err(e),
        Ok(after) => match v.piece_at(pos, v.pieces.len()) {
            Some(i) => if v.pieces[i].team == team {
                Ok(after)
            } else {
                Err(MoveError::NoPiece)
            },
            None => Err(MoveError::NoPiece),
        },
    }
}

/// The cells of the pieces of `team` among the first `n` pieces, in order.
pub open spec fn cells_of(pieces: Seq<Player>, team: Team, n: nat) -> Seq<Pos>
    decreases n,
{
    if n == 0 {
        Seq::empty()
    } else {
        let before = cells_of(pieces, team, (n - 1) as nat);
        if pieces[n - 1].team == team {
            before.push(pieces[n - 1].pos)
        } else {
            before
        }
    }
}

/// The four pieces of the opening: White on the upper row at the two
/// columns, Black on the lower row.
pub open spec fn opening_pieces(low: i8, high: i8) -> Seq<Player> {
    seq![
        Player { team: Team::White, pos: Pos { row: low, col: low } },
        Player { team: Team::White, pos: Pos { row: low, col: high } },
        Player { team: Team::Black, pos: Pos { row: high, col: low } },
        Player { team: Team::Black, pos: Pos { row: high, col: high } },
    ]
}

/// A board is the opening position of the given side: the four pieces stand
/// on their cells, and nothing but the border and the pieces is obstructed.
pub open spec fn is_opening(v: BoardView, size: int, low: i8, high: i8) -> bool {
    &&& v.wf()
    &&& v.size == size
    &&& v.pieces == opening_pieces(low, high)
    &&& forall|p: Pos| v.wall(p) <==> v.border(p) || v.occupied(p)
}

/// A game of Amazons: every board since the opening, the latest last.
pub struct Amazons {
    board_size: i8,
    boards: Vec<Board>,
    cache: DistState,
}

impl Amazons {
    /// The game holds at least the opening, and every board of it is well
    /// formed and of the game's size.
    pub closed spec fn wf(&self) -> bool {
        &&& self.boards.len() >= 1
        &&& forall|i: int|
            0 <= i < self.boards.len() ==> (#[trigger] self.boards[i]).wf() && self.boards[i]@.size
                == self.board_size
    }

    /// The boards since the opening, the latest last.
    pub closed spec fn history(&self) -> Seq<BoardView> {
        views(self.boards@)
    }

    /// The board of `i` moves ago, or the opening if the game is not that
    /// old.
    pub open spec fn nth_last(&self, i: int) -> BoardView {
        if self.history().len() > i {
            self.history()[self.history().len() - 1 - i]
        } else {
            self.history()[0]
        }
    }

    /// A game on a board of the given side with the four pieces of the
    /// opening.
    fn start(board_size: i8, low: i8, high: i8) -> (g: Amazons)
        requires
            1 <= low < high < board_size - 1,
        ensures
            g.wf(),
            g.history().len() == 1,
            is_opening(g.history()[0], board_size as int, low, high),
    {
        let mut players: Vec<Player> = Vec::new();
        players.push(Player { team: Team::White, pos: Pos { row: low, col: low } });
        players.push(Player { team: Team::White, pos: Pos { row: low, col: high } });
        players.push(Player { team: Team::Black, pos: Pos { row: high, col: low } });
        players.push(Player { team: Team::Black, pos: Pos { row: high, col: high } });
        assert(players@ =~= opening_pieces(low, high));
        let board = Board::new(board_size, players);
        let mut boards: Vec<Board> = Vec::new();
        boards.push(board);
        let g = Amazons { board_size, boards, cache: DistState::with_board_size(board_size) };
        assert(g.history()[0] == board@);
        g
    }

    /// A new game on the small board: a play area of five by five cells.
    pub fn new_5x5() -> (g: Amazons)
        ensures
            g.wf(),
            g.history().len() == 1,
            is_opening(g.history()[0], 7, 2, 4),
    {
        Amazons::start(7, 2, 4)
    }

    /// A new game on the standard board: a play area of eight by eight
    /// cells.
    pub fn new_8x8() -> (g: Amazons)
        ensures
            g.wf(),
            g.history().len() == 1,
            is_opening(g.history()[0], 10, 3, 6),
    {
        Amazons::start(10, 3, 6)
    }

    /// Takes back the last two moves, one by each side. A game with fewer
    /// than two moves played stays as it is.
    pub fn undo_2_move(&mut self)
        requires
            old(self).wf(),
        ensures
            final(self).wf(),
            old(self).history().len() >= 3 ==> final(self).history() == old(self).history().take(
                old(self).history().len() - 2,
            ),
            old(self).history().len() < 3 ==> final(self).history() == old(self).history(),
    {
        if self.boards.len() >= 3 {
            let ghost before = self.boards@;
            self.boards.pop();
            self.boards.pop();
            assert(self.boards@ =~= before.take(before.len() - 2));
            assert(views(self.boards@) =~= views(before).take(before.len() - 2));
        }
    }

    /// The cells on which the pieces of `team` stand.
    pub fn team_pieces(&self, team: Team) -> (cells: Vec<Pos>)
        requires
            self.wf(),
        ensures
            cells@ == cells_of(
                self.history().last().pieces,
                team,
                self.history().last().pieces.len(),
            ),
    {
        let board = &self.boards[self.boards.len() - 1];
        let players = board.players();
        let mut cells: Vec<Pos> = Vec::new();
        let mut k: usize = 0;
        while k < players.len()
            invariant
                0 <= k <= players.len(),
                cells@ == cells_of(players@, team, k as nat),
            decreases players.len() - k,
        {
            if players[k].team == team {
                cells.push(players[k].pos);
            }
            k += 1;
        }
        cells
    }

    /// Makes a move for a player of `team`: the piece on `pos` moves to `mv`
    /// and shoots at `shot`. A move that the board's check turns down, or
    /// one of a piece that is not of `team`, leaves the game as it is and
    /// gives the reason in words.
    pub fn player_move(&mut self, team: Team, pos: Pos, mv: Pos, shot: Pos) -> (r: Result<
        (),
        String,
    >)
        requires
            old(self).wf(),
        ensures
            final(self).wf(),
            match player_verdict(old(self).history().last(), team, pos, mv, shot) {
                Ok(after) => r is Ok && final(self).history() == old(self).history().push(after),
                Err(e) => r matches Err(m) && m@ == e.text() && final(self).history() == old(
                    self,
                ).history(),
            },
    {
        let ghost before = self.boards@;
        let board = &self.boards[self.boards.len() - 1];
        match board.with_move_checked(pos, mv, shot) {
            Err(e) => Err(e.message()),
            Ok(after) => {
                let owned = match board.find_piece(pos) {
                    Some(i) => board.players()[i].team == team,
                    None => false,
                };
                proof {
                    board@.lemma_piece_at(pos, board@.pieces.len());
                }
                if owned {
                    self.boards.push(after);
                    assert(views(self.boards@) =~= views(before).push(after@));
                    Ok(())
                } else {
                    Err(MoveError::NoPiece.message())
                }
            },
        }
    }

    /// Lets the search move for `team`, looking `depth` levels ahead. The
    /// result says whether a move was made: a side without a move gives up,
    /// and the game stays as it is.
    pub fn ai_move(&mut self, team: Team, strategy: EvalStrategy, depth: i32) -> (moved: bool)
        requires
            old(self).wf(),
        ensures
            final(self).wf(),
            match old(self).history().last().best_move(team, strategy, depth as int).0 {
                Some(after) => moved && final(self).history() == old(self).history().push(after),
                None => !moved && final(self).history() == old(self).history(),
            },
    {
        let ghost before = self.boards@;
        let found = max_move(
            &self.boards[self.boards.len() - 1],
            team,
            strategy,
            depth,
            &mut self.cache,
        );
        match found.0 {
            Some(b) => {
                self.boards.push(b);
                assert(views(self.boards@) =~= views(before).push(b@));
                true
            },
            None => false,
        }
    }

    /// The score for `team` of the board of `ix` moves ago, or of the
    /// opening if the game is not that old.
    pub fn evaluate(&mut self, ix: usize, team: Team, strategy: EvalStrategy) -> (s: i64)
        requires
            old(self).wf(),
        ensures
            final(self).wf(),
            s == old(self).nth_last(ix as int).evaluation(team, strategy),
            final(self).history() == old(self).history(),
    {
        let at = if self.boards.len() > ix {
            self.boards.len() - 1 - ix
        } else {
            0
        };
        self.boards[at].evaluate(team, strategy, &mut self.cache)
    }

    /// A copy of the board of `i` moves ago, or of the opening if the game
    /// is not that old.
    pub fn nth_last_board(&self, i: usize) -> (b: Board)
        requires
            self.wf(),
        ensures
            b@ == self.nth_last(i as int),
            b.wf(),
    {
        if self.boards.len() > i {
            self.boards[self.boards.len() - 1 - i].clone()
        } else {
            self.boards[0].clone()
        }
    }

    /// The latest board.
    pub fn curr_board(&self) -> (b: &Board)
        requires
            self.wf(),
        ensures
            b@ == self.history().last(),
            b.wf(),
            self.history().len() >= 1,
    {
        &self.boards[self.boards.len() - 1]
    }
}

} // verus!
